//! Taylor expansion with exact rational coefficients when possible.
//!
//! Coefficients are `f^(k)(at) / k!`. Each derivative is evaluated exactly;
//! when some coefficient has no exact rational value the expansion is left to
//! a binary64 evaluation by the caller.
use vstd::prelude::*;
use crate::ast::{
    binary, binary_node, int_node, lemma_built_well_formed, number_expr, number_node, size,
    well_formed,
};
use crate::differentiate::{deriv, differentiate, lemma_deriv_well_formed};
use crate::error::{exhausted, Budget, EngineError, ErrorCode, Limits};
use crate::evaluate::{eval_exact, evaluate_exact, nums_view};
use crate::expr::{clone_expr, exprs_view, lemma_exprs_view, lemma_exprs_view_push, BinaryOp, Expr, ExprV};
use crate::number::{big_div, big_mul, lemma_rat_mul_int, rat_div, rat_int, rat_mul, Number, Rat};
use crate::simplify::{simp, simplify};
use vstd::string::*;

verus! {

pub open spec fn factorial(n: nat) -> nat
    decreases n,
{
    if n == 0 {
        1
    } else {
        n * factorial((n - 1) as nat)
    }
}

/// The `k`-th derivative, unsimplified, or the first obstacle.
pub open spec fn nth_deriv(e: ExprV, v: Seq<char>, k: nat) -> Result<ExprV, ErrorCode>
    decreases k,
{
    if k == 0 {
        Ok(e)
    } else {
        match nth_deriv(e, v, (k - 1) as nat) {
            Ok(d) => deriv(d, v),
            Err(c) => Err(c),
        }
    }
}

/// The simplified derivatives of orders `0..=n`, or the first obstacle.
pub open spec fn derivative_table(e: ExprV, v: Seq<char>, n: nat) -> Result<
    Seq<ExprV>,
    ErrorCode,
> {
    match nth_deriv(e, v, n) {
        Err(c) => Err(c),
        Ok(_) => Ok(Seq::new(n + 1, |k: int| simp(nth_deriv(e, v, k as nat)->Ok_0))),
    }
}

/// The `k`-th coefficient `d(at) / k!` of a derivative `d` of order `k`.
pub open spec fn taylor_coefficient(d: ExprV, k: nat, v: Seq<char>, at: Rat) -> Result<
    Rat,
    ErrorCode,
> {
    match eval_exact(d, v, at) {
        Ok(x) => Ok(rat_div(x, rat_int(factorial(k) as int))),
        Err(c) => Err(c),
    }
}

/// Obstacles that mean "no exact value here" rather than a failure.
pub open spec fn falls_back(c: ErrorCode) -> bool {
    c == ErrorCode::UnsupportedOperation || c == ErrorCode::UnsupportedNumericMode || c
        == ErrorCode::NotFound
}

/// The exact coefficients of a derivative table; `Err(None)` when some
/// coefficient has no exact value, `Err(Some(c))` on a failure.
pub open spec fn exact_coefficients(ds: Seq<ExprV>, v: Seq<char>, at: Rat) -> Result<
    Seq<Rat>,
    Option<ErrorCode>,
>
    decreases ds.len(),
{
    if ds.len() == 0 {
        Ok(Seq::empty())
    } else {
        match exact_coefficients(ds.drop_last(), v, at) {
            Err(x) => Err(x),
            Ok(cs) => match taylor_coefficient(ds.last(), (ds.len() - 1) as nat, v, at) {
                Ok(c) => Ok(cs.push(c)),
                Err(code) => if falls_back(code) {
                    Err(None)
                } else {
                    Err(Some(code))
                },
            },
        }
    }
}

/// `v - at`, or `v` at zero.
pub open spec fn offset_node(v: Seq<char>, at: Rat) -> ExprV {
    if at.num == 0 {
        ExprV::Ident(v)
    } else {
        binary_node(BinaryOp::Sub, ExprV::Ident(v), number_node(at))
    }
}

/// `c * (v - at)^k`, written without a power for `k <= 1`.
pub open spec fn term_node(c: Rat, k: nat, v: Seq<char>, at: Rat) -> ExprV {
    if k == 0 {
        number_node(c)
    } else if k == 1 {
        binary_node(BinaryOp::Mul, number_node(c), offset_node(v, at))
    } else {
        binary_node(
            BinaryOp::Mul,
            number_node(c),
            binary_node(BinaryOp::Pow, offset_node(v, at), int_node(k as int)),
        )
    }
}

/// The terms of the nonzero coefficients, in order.
pub open spec fn poly_terms(cs: Seq<Rat>, v: Seq<char>, at: Rat) -> Seq<ExprV>
    decreases cs.len(),
{
    if cs.len() == 0 {
        Seq::empty()
    } else {
        let before = poly_terms(cs.drop_last(), v, at);
        if cs.last().num == 0 {
            before
        } else {
            before.push(term_node(cs.last(), (cs.len() - 1) as nat, v, at))
        }
    }
}

/// Left-nested sum of the terms; `0` when there are none.
pub open spec fn sum_chain(ts: Seq<ExprV>) -> ExprV
    decreases ts.len(),
{
    if ts.len() == 0 {
        int_node(0)
    } else if ts.len() == 1 {
        ts[0]
    } else {
        binary_node(BinaryOp::Add, sum_chain(ts.drop_last()), ts.last())
    }
}

/// The simplified Taylor polynomial of the coefficients around `at`.
pub open spec fn polynomial(cs: Seq<Rat>, v: Seq<char>, at: Rat) -> ExprV {
    simp(sum_chain(poly_terms(cs, v, at)))
}

proof fn lemma_factorial_positive(n: nat)
    ensures
        factorial(n) >= 1,
    decreases n,
{
    if n > 0 {
        lemma_factorial_positive((n - 1) as nat);
        assert(n * factorial((n - 1) as nat) >= 1) by (nonlinear_arith)
            requires
                n >= 1,
                factorial((n - 1) as nat) >= 1,
        ;
    }
}

/// Once a derivative fails, every higher one fails the same way.
pub proof fn lemma_nth_deriv_error(e: ExprV, v: Seq<char>, j: nat, k: nat)
    requires
        j <= k,
        nth_deriv(e, v, j) is Err,
    ensures
        nth_deriv(e, v, k) == nth_deriv(e, v, j),
    decreases k - j,
{
    if j < k {
        lemma_nth_deriv_error(e, v, j, (k - 1) as nat);
    }
}

/// Every derivative of a well-formed expression is well formed.
pub proof fn lemma_nth_deriv_well_formed(e: ExprV, v: Seq<char>, k: nat)
    requires
        well_formed(e),
    ensures
        nth_deriv(e, v, k) matches Ok(d) ==> well_formed(d),
    decreases k,
{
    if k > 0 {
        lemma_nth_deriv_well_formed(e, v, (k - 1) as nat);
        if let Ok(d) = nth_deriv(e, v, (k - 1) as nat) {
            lemma_deriv_well_formed(d, v);
        }
    }
}

/// The work limit suffices for building a derivative table: each
/// differentiation and each simplification.
pub open spec fn table_fits(e: ExprV, v: Seq<char>, n: nat, max: int) -> bool {
    &&& forall|k: nat|
        k < n ==> (#[trigger] nth_deriv(e, v, k) matches Ok(d) ==> crate::differentiate::dcost(d)
            <= max)
    &&& forall|k: nat|
        k <= n ==> (#[trigger] nth_deriv(e, v, k) matches Ok(d) ==> crate::simplify::scost(d)
            <= max)
}

/// The simplified derivatives of orders `0..=order`.
pub fn derivatives(expr: &Expr, variable: &str, order: u32, limits: &Limits) -> (r: Result<
    Vec<Expr>,
    EngineError,
>)
    ensures
        r matches Ok(ds) ==> derivative_table(expr@, variable@, order as nat) == Ok::<
            Seq<ExprV>,
            ErrorCode,
        >(exprs_view(ds@)),
        r matches Err(e) ==> e.code == ErrorCode::ResourceLimit || derivative_table(
            expr@,
            variable@,
            order as nat,
        ) == Err::<Seq<ExprV>, ErrorCode>(e.code),
        derivative_table(expr@, variable@, order as nat) is Ok && table_fits(
            expr@,
            variable@,
            order as nat,
            limits.max_operations as int,
        ) ==> r is Ok,
{
    let ghost e = expr@;
    let ghost v = variable@;
    let ghost fits = derivative_table(e, v, order as nat) is Ok && table_fits(
        e,
        v,
        order as nat,
        limits.max_operations as int,
    );
    let mut current = clone_expr(expr);
    proof {
        if fits {
            assert(nth_deriv(e, v, 0) == Ok::<ExprV, ErrorCode>(e));
        }
    }
    let mut table: Vec<Expr> = Vec::new();
    let first = simplify(&current, limits)?;
    table.push(first);
    let mut k: u32 = 0;
    while k < order
        invariant
            k <= order,
            e == expr@,
            v == variable@,
            nth_deriv(e, v, k as nat) == Ok::<ExprV, ErrorCode>(current@),
            table.len() == k + 1,
            forall|j: int|
                0 <= j <= k ==> #[trigger] table@[j]@ == simp(nth_deriv(e, v, j as nat)->Ok_0),
            fits == (derivative_table(e, v, order as nat) is Ok && table_fits(
                e,
                v,
                order as nat,
                limits.max_operations as int,
            )),
        decreases order - k,
    {
        let next = match differentiate(&current, variable, limits) {
            Ok(d) => d,
            Err(err) => {
                proof {
                    if err.code != ErrorCode::ResourceLimit {
                        lemma_nth_deriv_error(e, v, (k + 1) as nat, order as nat);
                    }
                    if fits {
                        assert(nth_deriv(e, v, k as nat) matches Ok(d) ==> crate::differentiate::dcost(d)
                            <= limits.max_operations);
                        assert(nth_deriv(e, v, (k + 1) as nat) == deriv(current@, v));
                        if err.code != ErrorCode::ResourceLimit {
                            assert(nth_deriv(e, v, order as nat) is Err);
                        }
                    }
                }
                return Err(err);
            },
        };
        current = next;
        k = k + 1;
        proof {
            if fits {
                assert(nth_deriv(e, v, k as nat) matches Ok(d) ==> crate::simplify::scost(d)
                    <= limits.max_operations);
            }
        }
        let simplified = simplify(&current, limits)?;
        table.push(simplified);
    }
    proof {
        lemma_exprs_view(table@);
    }
    assert(exprs_view(table@) =~= Seq::new(
        order as nat + 1,
        |j: int| simp(nth_deriv(e, v, j as nat)->Ok_0),
    ));
    Ok(table)
}

/// The exact coefficients of a derivative table, each evaluated under a fresh
/// budget; `Err(None)` when some coefficient has no exact value.
pub fn exact_coefficients_of(ds: &Vec<Expr>, variable: &str, at: &Number, limits: &Limits) -> (r:
    Result<Vec<Number>, Option<EngineError>>)
    ensures
        r matches Ok(cs) ==> exact_coefficients(exprs_view(ds@), variable@, at@) == Ok::<
            Seq<Rat>,
            Option<ErrorCode>,
        >(nums_view(cs@)),
        r matches Err(None) ==> exact_coefficients(exprs_view(ds@), variable@, at@) == Err::<
            Seq<Rat>,
            Option<ErrorCode>,
        >(None),
        r matches Err(Some(e)) ==> e.code == ErrorCode::ResourceLimit || exact_coefficients(
            exprs_view(ds@),
            variable@,
            at@,
        ) == Err::<Seq<Rat>, Option<ErrorCode>>(Some(e.code)),
        (forall|i: int| 0 <= i < ds.len() ==> size(#[trigger] ds@[i]@) <= limits.max_operations)
            ==> !(r matches Err(Some(e)) && e.code == ErrorCode::ResourceLimit),
{
    let ghost views = exprs_view(ds@);
    let ghost fits = forall|j: int|
        0 <= j < ds.len() ==> size(#[trigger] ds@[j]@) <= limits.max_operations;
    proof {
        lemma_exprs_view(ds@);
    }
    let mut out: Vec<Number> = Vec::new();
    let mut factorial_value = Number::one();
    let mut i: usize = 0;
    assert(views.subrange(0, 0) =~= Seq::<ExprV>::empty());
    assert(nums_view(out@) =~= Seq::<Rat>::empty());
    while i < ds.len()
        invariant
            i <= ds.len(),
            views == exprs_view(ds@),
            views.len() == ds.len(),
            forall|j: int| 0 <= j < ds.len() ==> #[trigger] views[j] == ds@[j]@,
            exact_coefficients(views.subrange(0, i as int), variable@, at@) == Ok::<
                Seq<Rat>,
                Option<ErrorCode>,
            >(nums_view(out@)),
            fits == (forall|j: int|
                0 <= j < ds.len() ==> size(#[trigger] ds@[j]@) <= limits.max_operations),
            factorial_value@ == rat_int(factorial(if i == 0 {
                0
            } else {
                (i - 1) as nat
            }) as int),
        decreases ds.len() - i,
    {
        let ghost prefix = views.subrange(0, i as int + 1);
        assert(prefix.drop_last() =~= views.subrange(0, i as int));
        assert(prefix.last() == ds@[i as int]@);
        if i > 0 {
            let index = Number::from_u64(i as u64);
            factorial_value = big_mul(&factorial_value, &index);
            proof {
                lemma_rat_mul_int(factorial((i - 1) as nat) as int, i as int);
                assert(factorial(i as nat) == i * factorial((i - 1) as nat));
                assert(factorial((i - 1) as nat) * i == i * factorial((i - 1) as nat)) by (
                nonlinear_arith);
            }
        }
        proof {
            lemma_factorial_positive(i as nat);
        }
        assert(factorial_value@ == rat_int(factorial(i as nat) as int));
        let mut budget = Budget::new(limits.max_operations);
        let value = match evaluate_exact(&ds[i], variable, at, &mut budget) {
            Ok(value) => value,
            Err(e) => {
                if e.code == ErrorCode::ResourceLimit {
                    proof {
                        if fits {
                            assert(size(ds@[i as int]@) <= limits.max_operations);
                        }
                    }
                    return Err(Some(e));
                }
                proof {
                    lemma_coefficients_error_extends(views, i as int + 1, variable@, at@);
                }
                if e.code == ErrorCode::UnsupportedOperation || e.code
                    == ErrorCode::UnsupportedNumericMode || e.code == ErrorCode::NotFound {
                    return Err(None);
                }
                return Err(Some(e));
            },
        };
        let coefficient = big_div(&value, &factorial_value);
        let ghost before = nums_view(out@);
        out.push(coefficient);
        assert(nums_view(out@) =~= before.push(coefficient@));
        i = i + 1;
    }
    assert(views.subrange(0, ds.len() as int) =~= views);
    Ok(out)
}

/// Once the coefficients of a prefix fail, the whole table fails the same way.
proof fn lemma_coefficients_error_extends(s: Seq<ExprV>, k: int, v: Seq<char>, at: Rat)
    requires
        0 <= k <= s.len(),
        exact_coefficients(s.subrange(0, k), v, at) is Err,
    ensures
        exact_coefficients(s, v, at) == exact_coefficients(s.subrange(0, k), v, at),
    decreases s.len() - k,
{
    if k < s.len() {
        assert(s.subrange(0, k + 1).drop_last() =~= s.subrange(0, k));
        lemma_coefficients_error_extends(s, k + 1, v, at);
    } else {
        assert(s.subrange(0, k) =~= s);
    }
}

/// `v - at`, or `v` at zero.
fn offset_expr(variable: &str, at: &Number) -> (r: Expr)
    ensures
        r@ == offset_node(variable@, at@),
{
    let name = Expr::Ident(String::from_str(variable));
    if at.is_zero() {
        name
    } else {
        binary(BinaryOp::Sub, name, number_expr(at.copy()))
    }
}

/// The simplified polynomial `sum c_k * (v - at)^k` over the nonzero
/// coefficients.
pub fn build_polynomial(cs: &Vec<Number>, variable: &str, at: &Number, limits: &Limits) -> (r:
    Result<Expr, EngineError>)
    ensures
        r matches Ok(p) ==> p@ == polynomial(nums_view(cs@), variable@, at@),
        r matches Ok(p) ==> well_formed(p@),
        r matches Err(e) ==> e.code == ErrorCode::ResourceLimit,
        crate::simplify::scost(sum_chain(poly_terms(nums_view(cs@), variable@, at@)))
            <= limits.max_operations ==> r is Ok,
{
    let ghost values = nums_view(cs@);
    proof {
        lemma_polynomial_well_formed(values, variable@, at@);
    }
    let mut terms: Vec<Expr> = Vec::new();
    let mut i: usize = 0;
    assert(values.subrange(0, 0) =~= Seq::<Rat>::empty());
    assert(exprs_view(terms@) =~= Seq::<ExprV>::empty());
    while i < cs.len()
        invariant
            i <= cs.len(),
            values == nums_view(cs@),
            values.len() == cs.len(),
            exprs_view(terms@) == poly_terms(values.subrange(0, i as int), variable@, at@),
        decreases cs.len() - i,
    {
        let ghost prefix = values.subrange(0, i as int + 1);
        assert(prefix.drop_last() =~= values.subrange(0, i as int));
        assert(prefix.last() == cs@[i as int]@);
        if !cs[i].is_zero() {
            let coefficient = number_expr(cs[i].copy());
            let term = if i == 0 {
                coefficient
            } else if i == 1 {
                binary(BinaryOp::Mul, coefficient, offset_expr(variable, at))
            } else {
                let exponent = number_expr(Number::from_u64(i as u64));
                binary(
                    BinaryOp::Mul,
                    coefficient,
                    binary(BinaryOp::Pow, offset_expr(variable, at), exponent),
                )
            };
            proof {
                lemma_exprs_view_push(terms@, term);
            }
            terms.push(term);
        }
        i = i + 1;
    }
    assert(values.subrange(0, cs.len() as int) =~= values);
    let ghost all = exprs_view(terms@);
    proof {
        lemma_exprs_view(terms@);
    }
    if terms.len() == 0 {
        let zero = crate::ast::zero_expr();
        return simplify(&zero, limits);
    }
    let mut sum = clone_expr(&terms[0]);
    let mut j: usize = 1;
    while j < terms.len()
        invariant
            1 <= j <= terms.len(),
            all == exprs_view(terms@),
            all.len() == terms.len(),
            forall|k: int| 0 <= k < terms.len() ==> #[trigger] all[k] == terms@[k]@,
            sum@ == sum_chain(all.subrange(0, j as int)),
        decreases terms.len() - j,
    {
        let ghost prefix = all.subrange(0, j as int + 1);
        assert(prefix.drop_last() =~= all.subrange(0, j as int));
        assert(prefix.last() == terms@[j as int]@);
        sum = binary(BinaryOp::Add, sum, clone_expr(&terms[j]));
        j = j + 1;
    }
    assert(all.subrange(0, terms.len() as int) =~= all);
    simplify(&sum, limits)
}

proof fn lemma_poly_terms_well_formed(cs: Seq<Rat>, v: Seq<char>, at: Rat)
    ensures
        forall|i: int|
            0 <= i < poly_terms(cs, v, at).len() ==> #[trigger] well_formed(
                poly_terms(cs, v, at)[i],
            ),
    decreases cs.len(),
{
    lemma_built_well_formed();
    if cs.len() > 0 {
        lemma_poly_terms_well_formed(cs.drop_last(), v, at);
        assert(well_formed(offset_node(v, at)));
        let t = term_node(cs.last(), (cs.len() - 1) as nat, v, at);
        assert(well_formed(t));
        let before = poly_terms(cs.drop_last(), v, at);
        if cs.last().num != 0 {
            assert forall|i: int| 0 <= i < before.push(t).len() implies #[trigger] well_formed(
                before.push(t)[i],
            ) by {
                if i < before.len() {
                    assert(before.push(t)[i] == before[i]);
                }
            }
        }
    }
}

proof fn lemma_sum_chain_well_formed(ts: Seq<ExprV>)
    requires
        forall|i: int| 0 <= i < ts.len() ==> #[trigger] well_formed(ts[i]),
    ensures
        well_formed(sum_chain(ts)),
    decreases ts.len(),
{
    lemma_built_well_formed();
    if ts.len() > 1 {
        assert forall|i: int| 0 <= i < ts.drop_last().len() implies #[trigger] well_formed(
            ts.drop_last()[i],
        ) by {
            assert(ts.drop_last()[i] == ts[i]);
        }
        lemma_sum_chain_well_formed(ts.drop_last());
        assert(well_formed(ts[ts.len() - 1]));
    } else if ts.len() == 1 {
        assert(well_formed(ts[0]));
    }
}

/// The Taylor polynomial is a well-formed tree.
pub proof fn lemma_polynomial_well_formed(cs: Seq<Rat>, v: Seq<char>, at: Rat)
    ensures
        well_formed(sum_chain(poly_terms(cs, v, at))),
{
    lemma_poly_terms_well_formed(cs, v, at);
    lemma_sum_chain_well_formed(poly_terms(cs, v, at));
}


// ---------------------------------------------------------------------------
// The polynomial at its centre
// ---------------------------------------------------------------------------

/// The value of the polynomial at its centre: the first coefficient.
pub open spec fn centre_value(cs: Seq<Rat>) -> Rat {
    if cs.len() > 0 && cs[0].num != 0 {
        cs[0]
    } else {
        rat_int(0)
    }
}

/// At `v = at` the offset `v - at` is zero.
proof fn lemma_offset_at_centre(v: Seq<char>, at: Rat)
    requires
        crate::number::reduced(at),
    ensures
        eval_exact(offset_node(v, at), v, at) == Ok::<Rat, ErrorCode>(rat_int(0)),
        crate::simplify_value::literals_reduced(offset_node(v, at)),
{
    crate::rational::lemma_neg_reduced(at);
    crate::simplify_value::lemma_built_literals();
    crate::simplify_value::lemma_built_values(v, at);
    assert(crate::simplify_value::literals_reduced(ExprV::Ident(v)));
    if at.num == 0 {
        assert(at.den == 1) by {
            assert(crate::number::abs(at.num) == 0);
            assert(crate::number::gcd(0, at.den as nat) == crate::number::gcd(
                at.den as nat,
                0nat % (at.den as nat),
            ));
        }
        assert(eval_exact(ExprV::Ident(v), v, at) == Ok::<Rat, ErrorCode>(at));
    } else {
        let n = number_node(at);
        assert(eval_exact(n, v, at) == Ok::<Rat, ErrorCode>(at)) by {
            if at.num < 0 {
                assert(eval_exact(ExprV::Number(crate::number::rat_neg(at)), v, at) == Ok::<
                    Rat,
                    ErrorCode,
                >(crate::number::rat_neg(at)));
            }
        }
        assert(at.num * at.den - at.num * at.den == 0);
        assert(crate::number::rat_sub(at, at) == rat_int(0));
        assert(eval_exact(ExprV::Ident(v), v, at) == Ok::<Rat, ErrorCode>(at));
        assert(eval_exact(offset_node(v, at), v, at) == Ok::<Rat, ErrorCode>(rat_int(0)));
        assert(crate::simplify_value::literals_reduced(n)) by {
            if at.num < 0 {
                assert(crate::simplify_value::literals_reduced(
                    ExprV::Number(crate::number::rat_neg(at)),
                ));
            }
        }
    }
}

/// Every term but the constant one is zero at the centre.
proof fn lemma_term_at_centre(c: Rat, k: nat, v: Seq<char>, at: Rat)
    requires
        crate::number::reduced(c),
        crate::number::reduced(at),
        k <= crate::evaluate::MAX_EXACT_EXPONENT,
    ensures
        eval_exact(term_node(c, k, v, at), v, at) == Ok::<Rat, ErrorCode>(
            if k == 0 {
                c
            } else {
                rat_int(0)
            },
        ),
        crate::simplify_value::literals_reduced(term_node(c, k, v, at)),
{
    crate::rational::lemma_neg_reduced(c);
    crate::rational::lemma_int_reduced(k as int);
    crate::simplify_value::lemma_built_literals();
    crate::simplify_value::lemma_built_values(v, at);
    lemma_offset_at_centre(v, at);
    let n = number_node(c);
    assert(eval_exact(n, v, at) == Ok::<Rat, ErrorCode>(c)) by {
        if c.num < 0 {
            assert(eval_exact(ExprV::Number(crate::number::rat_neg(c)), v, at) == Ok::<
                Rat,
                ErrorCode,
            >(crate::number::rat_neg(c)));
        }
    }
    assert(crate::simplify_value::literals_reduced(n)) by {
        if c.num < 0 {
            assert(crate::simplify_value::literals_reduced(
                ExprV::Number(crate::number::rat_neg(c)),
            ));
        }
    }
    crate::rational::lemma_mul_zero(c);
    if k >= 2 {
        let z = rat_int(0);
        vstd::arithmetic::power::lemma0_pow(k);
        vstd::arithmetic::power::lemma1_pow(k);
        assert(crate::evaluate::pow_result(z, rat_int(k as int)) == Ok::<Rat, ErrorCode>(
            crate::number::normalize(0, 1),
        ));
        assert(crate::number::normalize(0, 1) == z);
        assert(crate::simplify_value::literals_reduced(int_node(k as int)));
        let off = offset_node(v, at);
        let pw = binary_node(BinaryOp::Pow, off, int_node(k as int));
        assert(eval_exact(int_node(k as int), v, at) == Ok::<Rat, ErrorCode>(rat_int(k as int)));
        assert(eval_exact(pw, v, at) == Ok::<Rat, ErrorCode>(z));
        assert(eval_exact(binary_node(BinaryOp::Mul, n, pw), v, at) == Ok::<Rat, ErrorCode>(
            rat_mul(c, z),
        ));
    } else if k == 1 {
        assert(eval_exact(binary_node(BinaryOp::Mul, n, offset_node(v, at)), v, at) == Ok::<
            Rat,
            ErrorCode,
        >(rat_mul(c, rat_int(0))));
    }
}

proof fn lemma_centre_terms(cs: Seq<Rat>, v: Seq<char>, at: Rat)
    requires
        crate::rational::all_reduced(cs),
        crate::number::reduced(at),
        cs.len() <= crate::evaluate::MAX_EXACT_EXPONENT + 1,
    ensures
        poly_terms(cs, v, at).len() == 0 ==> centre_value(cs) == rat_int(0),
        poly_terms(cs, v, at).len() > 0 ==> eval_exact(sum_chain(poly_terms(cs, v, at)), v, at)
            == Ok::<Rat, ErrorCode>(centre_value(cs)),
        crate::simplify_value::all_literals_reduced(poly_terms(cs, v, at)),
    decreases cs.len(),
{
    let ts = poly_terms(cs, v, at);
    if cs.len() > 0 {
        let d = cs.drop_last();
        lemma_centre_terms(d, v, at);
        let before = poly_terms(d, v, at);
        let c = cs.last();
        let k = (cs.len() - 1) as nat;
        assert(crate::number::reduced(cs[cs.len() - 1]));
        if d.len() > 0 {
            assert(d[0] == cs[0]);
        }
        if c.num != 0 {
            lemma_term_at_centre(c, k, v, at);
            let t = term_node(c, k, v, at);
            assert(ts == before.push(t));
            assert(ts.drop_last() == before);
            crate::simplify_value::lemma_all_literals_reduced(before);
            crate::simplify_value::lemma_all_literals_reduced(ts);
            assert forall|i: int| 0 <= i < ts.len() implies crate::simplify_value::literals_reduced(
                #[trigger] ts[i],
            ) by {
                if i < before.len() {
                    assert(ts[i] == before[i]);
                }
            }
            if before.len() == 0 {
                assert(ts.len() == 1);
                if k > 0 {
                    assert(centre_value(d) == rat_int(0));
                }
            } else {
                let x = centre_value(d);
                crate::rational::lemma_int_reduced(0);
                assert(crate::number::reduced(x)) by {
                    if d.len() > 0 && d[0].num != 0 {
                        assert(crate::number::reduced(d[0]));
                    }
                }
                crate::rational::lemma_add_zero(x);
                assert(k > 0);
            }
        }
    }
}

/// The Taylor polynomial takes the value of its first coefficient at the
/// expansion point: every other term holds a power of `v - at`, which is zero
/// there.
pub proof fn lemma_polynomial_at_centre(cs: Seq<Rat>, v: Seq<char>, at: Rat)
    requires
        crate::rational::all_reduced(cs),
        crate::number::reduced(at),
        cs.len() <= crate::evaluate::MAX_EXACT_EXPONENT + 1,
    ensures
        eval_exact(polynomial(cs, v, at), v, at) == Ok::<Rat, ErrorCode>(
            if cs.len() == 0 {
                rat_int(0)
            } else {
                cs[0]
            },
        ),
{
    lemma_centre_terms(cs, v, at);
    let ts = poly_terms(cs, v, at);
    let e = sum_chain(ts);
    crate::simplify_value::lemma_all_literals_reduced(ts);
    lemma_sum_chain_literals(ts);
    if ts.len() == 0 {
        assert(e == int_node(0));
        crate::rational::lemma_int_reduced(0);
    }
    crate::simplify_value::lemma_simp_keeps_value(e, v, at);
    if cs.len() > 0 && cs[0].num == 0 {
        assert(crate::number::reduced(cs[0]));
        assert(crate::number::gcd(0, cs[0].den as nat) == crate::number::gcd(
            cs[0].den as nat,
            0nat % (cs[0].den as nat),
        ));
    }
}

proof fn lemma_sum_chain_literals(ts: Seq<ExprV>)
    requires
        forall|i: int| 0 <= i < ts.len() ==> crate::simplify_value::literals_reduced(
            #[trigger] ts[i],
        ),
    ensures
        crate::simplify_value::literals_reduced(sum_chain(ts)),
    decreases ts.len(),
{
    crate::rational::lemma_int_reduced(0);
    if ts.len() > 1 {
        let d = ts.drop_last();
        assert forall|i: int| 0 <= i < d.len() implies crate::simplify_value::literals_reduced(
            #[trigger] d[i],
        ) by {
            assert(d[i] == ts[i]);
        }
        lemma_sum_chain_literals(d);
        assert(crate::simplify_value::literals_reduced(ts[ts.len() - 1]));
    } else if ts.len() == 1 {
        assert(crate::simplify_value::literals_reduced(ts[0]));
    }
}

// ---------------------------------------------------------------------------
// The polynomial one unit past its centre
// ---------------------------------------------------------------------------

/// The sum of the coefficients.
pub open spec fn coefficient_sum(cs: Seq<Rat>) -> Rat
    decreases cs.len(),
{
    if cs.len() == 0 {
        rat_int(0)
    } else {
        crate::number::rat_add(coefficient_sum(cs.drop_last()), cs.last())
    }
}

/// At `v = at + 1` the offset `v - at` is one.
proof fn lemma_offset_one_past(v: Seq<char>, at: Rat)
    requires
        crate::number::reduced(at),
    ensures
        eval_exact(offset_node(v, at), v, crate::number::rat_add(at, rat_int(1))) == Ok::<
            Rat,
            ErrorCode,
        >(rat_int(1)),
{
    let one = rat_int(1);
    let p = crate::number::rat_add(at, one);
    crate::rational::lemma_int_reduced(0);
    crate::rational::lemma_int_reduced(1);
    crate::simplify_value::lemma_built_values(v, p);
    assert(eval_exact(ExprV::Ident(v), v, p) == Ok::<Rat, ErrorCode>(p));
    if at.num == 0 {
        assert(at.den == 1) by {
            assert(crate::number::abs(at.num) == 0);
            assert(crate::number::gcd(0, at.den as nat) == crate::number::gcd(
                at.den as nat,
                0nat % (at.den as nat),
            ));
        }
        assert(at == rat_int(0));
        crate::rational::lemma_add_zero(one);
    } else {
        crate::rational::lemma_neg_reduced(at);
        crate::rational::lemma_sub_is_add_neg(p, at);
        crate::rational::lemma_add_comm(at, one);
        crate::rational::lemma_add_assoc(one, at, crate::number::rat_neg(at));
        crate::rational::lemma_add_neg(at);
        crate::rational::lemma_add_zero(one);
        assert(crate::number::rat_sub(p, at) == one);
        assert(eval_exact(number_node(at), v, p) == Ok::<Rat, ErrorCode>(at));
    }
}

/// One unit past the centre every term is its coefficient.
proof fn lemma_term_one_past(c: Rat, k: nat, v: Seq<char>, at: Rat)
    requires
        crate::number::reduced(c),
        crate::number::reduced(at),
        k <= crate::evaluate::MAX_EXACT_EXPONENT,
    ensures
        eval_exact(term_node(c, k, v, at), v, crate::number::rat_add(at, rat_int(1))) == Ok::<
            Rat,
            ErrorCode,
        >(c),
{
    let one = rat_int(1);
    let p = crate::number::rat_add(at, one);
    crate::simplify_value::lemma_built_values(v, p);
    lemma_offset_one_past(v, at);
    crate::rational::lemma_mul_one(c);
    let n = number_node(c);
    assert(eval_exact(n, v, p) == Ok::<Rat, ErrorCode>(c));
    let off = offset_node(v, at);
    if k >= 2 {
        vstd::arithmetic::power::lemma1_pow(k);
        crate::rational::lemma_int_reduced(1);
        crate::rational::lemma_normalize_reduced(one);
        assert(crate::number::rat_pow(one, k as int) == one);
        assert(crate::evaluate::pow_result(one, rat_int(k as int)) == Ok::<Rat, ErrorCode>(one));
        let pw = binary_node(BinaryOp::Pow, off, int_node(k as int));
        assert(eval_exact(int_node(k as int), v, p) == Ok::<Rat, ErrorCode>(rat_int(k as int)));
        assert(eval_exact(pw, v, p) == Ok::<Rat, ErrorCode>(one));
        assert(eval_exact(binary_node(BinaryOp::Mul, n, pw), v, p) == Ok::<Rat, ErrorCode>(
            rat_mul(c, one),
        ));
    } else if k == 1 {
        assert(eval_exact(binary_node(BinaryOp::Mul, n, off), v, p) == Ok::<Rat, ErrorCode>(
            rat_mul(c, one),
        ));
    }
}

proof fn lemma_sum_reduced(cs: Seq<Rat>)
    requires
        crate::rational::all_reduced(cs),
    ensures
        crate::number::reduced(coefficient_sum(cs)),
    decreases cs.len(),
{
    crate::rational::lemma_int_reduced(0);
    if cs.len() > 0 {
        let d = cs.drop_last();
        assert(crate::rational::all_reduced(d)) by {
            assert forall|i: int| 0 <= i < d.len() implies crate::number::reduced(#[trigger] d[i]) by {
                assert(d[i] == cs[i]);
            }
        }
        lemma_sum_reduced(d);
        assert(crate::number::reduced(cs[cs.len() - 1]));
        crate::rational::lemma_ops_reduced(coefficient_sum(d), cs.last());
    }
}

proof fn lemma_terms_one_past(cs: Seq<Rat>, v: Seq<char>, at: Rat)
    requires
        crate::rational::all_reduced(cs),
        crate::number::reduced(at),
        cs.len() <= crate::evaluate::MAX_EXACT_EXPONENT + 1,
    ensures
        poly_terms(cs, v, at).len() == 0 ==> coefficient_sum(cs) == rat_int(0),
        poly_terms(cs, v, at).len() > 0 ==> eval_exact(
            sum_chain(poly_terms(cs, v, at)),
            v,
            crate::number::rat_add(at, rat_int(1)),
        ) == Ok::<Rat, ErrorCode>(coefficient_sum(cs)),
    decreases cs.len(),
{
    let p = crate::number::rat_add(at, rat_int(1));
    let ts = poly_terms(cs, v, at);
    if cs.len() > 0 {
        let d = cs.drop_last();
        assert(crate::rational::all_reduced(d)) by {
            assert forall|i: int| 0 <= i < d.len() implies crate::number::reduced(#[trigger] d[i]) by {
                assert(d[i] == cs[i]);
            }
        }
        lemma_terms_one_past(d, v, at);
        lemma_sum_reduced(d);
        let before = poly_terms(d, v, at);
        let c = cs.last();
        let k = (cs.len() - 1) as nat;
        let x = coefficient_sum(d);
        assert(crate::number::reduced(cs[cs.len() - 1]));
        crate::rational::lemma_add_zero(x);
        crate::rational::lemma_add_zero(c);
        if c.num == 0 {
            assert(c == rat_int(0)) by {
                assert(crate::number::abs(c.num) == 0);
                assert(crate::number::gcd(0, c.den as nat) == crate::number::gcd(
                    c.den as nat,
                    0nat % (c.den as nat),
                ));
            }
        } else {
            lemma_term_one_past(c, k, v, at);
            let t = term_node(c, k, v, at);
            assert(ts == before.push(t));
            assert(ts.drop_last() == before);
            if before.len() > 0 {
                assert(eval_exact(sum_chain(ts), v, p) == Ok::<Rat, ErrorCode>(
                    crate::number::rat_add(x, c),
                ));
            }
        }
    }
}

/// One unit past the expansion point every power of `v - at` is one, so the
/// Taylor polynomial takes the sum of its coefficients there.
pub proof fn lemma_polynomial_one_past_centre(cs: Seq<Rat>, v: Seq<char>, at: Rat)
    requires
        crate::rational::all_reduced(cs),
        crate::number::reduced(at),
        cs.len() <= crate::evaluate::MAX_EXACT_EXPONENT + 1,
    ensures
        eval_exact(polynomial(cs, v, at), v, crate::number::rat_add(at, rat_int(1))) == Ok::<
            Rat,
            ErrorCode,
        >(coefficient_sum(cs)),
{
    let p = crate::number::rat_add(at, rat_int(1));
    crate::rational::lemma_int_reduced(1);
    crate::rational::lemma_ops_reduced(at, rat_int(1));
    lemma_centre_terms(cs, v, at);
    lemma_terms_one_past(cs, v, at);
    let ts = poly_terms(cs, v, at);
    let e = sum_chain(ts);
    crate::simplify_value::lemma_all_literals_reduced(ts);
    lemma_sum_chain_literals(ts);
    if ts.len() == 0 {
        assert(e == int_node(0));
        crate::rational::lemma_int_reduced(0);
        crate::simplify_value::lemma_built_values(v, p);
        assert(eval_exact(e, v, p) == Ok::<Rat, ErrorCode>(rat_int(0)));
    }
    crate::simplify_value::lemma_simp_keeps_value(e, v, p);
}

// ---------------------------------------------------------------------------
// The polynomial at any point
// ---------------------------------------------------------------------------

/// `sum_k cs[k] * d^k`.
pub open spec fn power_sum(cs: Seq<Rat>, d: Rat) -> Rat
    decreases cs.len(),
{
    if cs.len() == 0 {
        rat_int(0)
    } else {
        crate::number::rat_add(
            power_sum(cs.drop_last(), d),
            rat_mul(cs.last(), crate::number::rat_pow(d, cs.len() - 1)),
        )
    }
}

/// At any point `p` the offset `v - at` is `p - at`.
proof fn lemma_offset_value(v: Seq<char>, at: Rat, p: Rat)
    requires
        crate::number::reduced(at),
        crate::number::reduced(p),
    ensures
        eval_exact(offset_node(v, at), v, p) == Ok::<Rat, ErrorCode>(crate::number::rat_sub(p, at)),
{
    crate::simplify_value::lemma_built_values(v, p);
    assert(eval_exact(ExprV::Ident(v), v, p) == Ok::<Rat, ErrorCode>(p));
    if at.num == 0 {
        assert(at.den == 1) by {
            assert(crate::number::abs(at.num) == 0);
            assert(crate::number::gcd(0, at.den as nat) == crate::number::gcd(
                at.den as nat,
                0nat % (at.den as nat),
            ));
        }
        crate::rational::lemma_normalize_reduced(p);
        assert(p.num * 1 - 0 * p.den == p.num && p.den * 1 == p.den);
    } else {
        assert(eval_exact(number_node(at), v, p) == Ok::<Rat, ErrorCode>(at));
    }
}

/// The power `d^k` is in lowest terms, and is `d` itself for `k == 1`.
proof fn lemma_power_reduced(d: Rat, k: nat)
    requires
        crate::number::reduced(d),
    ensures
        crate::number::reduced(crate::number::rat_pow(d, k as int)),
        k == 0 ==> crate::number::rat_pow(d, k as int) == rat_int(1),
        k == 1 ==> crate::number::rat_pow(d, k as int) == d,
{
    vstd::arithmetic::power::lemma_pow_positive(d.den, k);
    crate::rational::lemma_normalize(vstd::arithmetic::power::pow(d.num, k), vstd::arithmetic::power::pow(d.den, k));
    if k == 0 {
        vstd::arithmetic::power::lemma_pow0(d.num);
        vstd::arithmetic::power::lemma_pow0(d.den);
        crate::rational::lemma_int_reduced(1);
        crate::rational::lemma_normalize_reduced(rat_int(1));
    }
    if k == 1 {
        vstd::arithmetic::power::lemma_pow1(d.num);
        vstd::arithmetic::power::lemma_pow1(d.den);
        crate::rational::lemma_normalize_reduced(d);
    }
}

/// The term of degree `k` is `c * (p - at)^k` at `p`.
proof fn lemma_term_value(c: Rat, k: nat, v: Seq<char>, at: Rat, p: Rat)
    requires
        crate::number::reduced(c),
        crate::number::reduced(at),
        crate::number::reduced(p),
        k <= crate::evaluate::MAX_EXACT_EXPONENT,
    ensures
        eval_exact(term_node(c, k, v, at), v, p) == Ok::<Rat, ErrorCode>(
            rat_mul(c, crate::number::rat_pow(crate::number::rat_sub(p, at), k as int)),
        ),
{
    let d = crate::number::rat_sub(p, at);
    crate::rational::lemma_ops_reduced(p, at);
    crate::simplify_value::lemma_built_values(v, p);
    lemma_offset_value(v, at, p);
    lemma_power_reduced(d, k);
    crate::rational::lemma_mul_one(c);
    let n = number_node(c);
    assert(eval_exact(n, v, p) == Ok::<Rat, ErrorCode>(c));
    let off = offset_node(v, at);
    if k >= 2 {
        let pw = binary_node(BinaryOp::Pow, off, int_node(k as int));
        assert(crate::evaluate::pow_result(d, rat_int(k as int)) == Ok::<Rat, ErrorCode>(
            crate::number::rat_pow(d, k as int),
        ));
        assert(eval_exact(int_node(k as int), v, p) == Ok::<Rat, ErrorCode>(rat_int(k as int)));
        assert(eval_exact(pw, v, p) == Ok::<Rat, ErrorCode>(crate::number::rat_pow(d, k as int)));
    }
}

/// A reduced fraction with numerator zero is zero.
proof fn lemma_zero_reduced(c: Rat)
    requires
        crate::number::reduced(c),
        c.num == 0,
    ensures
        c == rat_int(0),
{
    assert(crate::number::abs(c.num) == 0);
    assert(0nat % (c.den as nat) == 0);
    assert(crate::number::gcd(0, c.den as nat) == crate::number::gcd(c.den as nat, 0));
}

proof fn lemma_terms_value(cs: Seq<Rat>, v: Seq<char>, at: Rat, p: Rat)
    requires
        crate::rational::all_reduced(cs),
        crate::number::reduced(at),
        crate::number::reduced(p),
        cs.len() <= crate::evaluate::MAX_EXACT_EXPONENT + 1,
    ensures
        crate::number::reduced(power_sum(cs, crate::number::rat_sub(p, at))),
        poly_terms(cs, v, at).len() == 0 ==> power_sum(cs, crate::number::rat_sub(p, at))
            == rat_int(0),
        poly_terms(cs, v, at).len() > 0 ==> eval_exact(sum_chain(poly_terms(cs, v, at)), v, p)
            == Ok::<Rat, ErrorCode>(power_sum(cs, crate::number::rat_sub(p, at))),
    decreases cs.len(),
{
    let dd = crate::number::rat_sub(p, at);
    crate::rational::lemma_ops_reduced(p, at);
    crate::rational::lemma_int_reduced(0);
    let ts = poly_terms(cs, v, at);
    if cs.len() > 0 {
        let d = cs.drop_last();
        assert(crate::rational::all_reduced(d)) by {
            assert forall|i: int| 0 <= i < d.len() implies crate::number::reduced(#[trigger] d[i]) by {
                assert(d[i] == cs[i]);
            }
        }
        lemma_terms_value(d, v, at, p);
        let before = poly_terms(d, v, at);
        let c = cs.last();
        let k = (cs.len() - 1) as nat;
        let x = power_sum(d, dd);
        let pk = crate::number::rat_pow(dd, k as int);
        assert(crate::number::reduced(cs[cs.len() - 1]));
        lemma_power_reduced(dd, k);
        crate::rational::lemma_ops_reduced(c, pk);
        let tv = rat_mul(c, pk);
        crate::rational::lemma_ops_reduced(x, tv);
        crate::rational::lemma_add_zero(x);
        crate::rational::lemma_add_zero(tv);
        if c.num == 0 {
            lemma_zero_reduced(c);
            crate::rational::lemma_mul_zero(pk);
        } else {
            lemma_term_value(c, k, v, at, p);
            let t = term_node(c, k, v, at);
            assert(ts == before.push(t));
            assert(ts.drop_last() == before);
            if before.len() > 0 {
                assert(eval_exact(sum_chain(ts), v, p) == Ok::<Rat, ErrorCode>(
                    crate::number::rat_add(x, tv),
                ));
            }
        }
    }
}

/// The Taylor polynomial is `sum_k cs[k] * (v - at)^k`: at every point `p`
/// it takes the value `sum_k cs[k] * (p - at)^k`.
pub proof fn lemma_polynomial_value(cs: Seq<Rat>, v: Seq<char>, at: Rat, p: Rat)
    requires
        crate::rational::all_reduced(cs),
        crate::number::reduced(at),
        crate::number::reduced(p),
        cs.len() <= crate::evaluate::MAX_EXACT_EXPONENT + 1,
    ensures
        eval_exact(polynomial(cs, v, at), v, p) == Ok::<Rat, ErrorCode>(
            power_sum(cs, crate::number::rat_sub(p, at)),
        ),
{
    lemma_centre_terms(cs, v, at);
    lemma_terms_value(cs, v, at, p);
    let ts = poly_terms(cs, v, at);
    let e = sum_chain(ts);
    crate::simplify_value::lemma_all_literals_reduced(ts);
    lemma_sum_chain_literals(ts);
    if ts.len() == 0 {
        assert(e == int_node(0));
        crate::simplify_value::lemma_built_values(v, p);
        assert(eval_exact(e, v, p) == Ok::<Rat, ErrorCode>(rat_int(0)));
    }
    crate::simplify_value::lemma_simp_keeps_value(e, v, p);
}

} // verus!
