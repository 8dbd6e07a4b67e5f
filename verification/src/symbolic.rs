//! The user-facing symbolic operations: derivative, simplification, Taylor
//! expansion, printing, substitution, and free variables.
//!
//! Each operation validates its arguments in the documented order, works
//! under the caller's limits, and reports structured errors for unknown
//! functions and variables.
use vstd::prelude::*;
use crate::ast::{
    calls_known, collect_free_variables, free_vars, is_keyword, is_numeric, names_view, size,
    sorted_names, subst, substitute, valid_identifier, validate_calls,
    validate_numeric_expression, validate_variable_name, well_formed, lemma_subst_well_formed,
};
use crate::differentiate::{deriv, differentiate, lemma_deriv_well_formed};
use crate::error::{EngineError, ErrorCode, Limits, NumericMode};
use crate::evaluate::nums_view;
use crate::expr::{clone_expr, exprs_view, lemma_exprs_view, Expr, ExprV};
use crate::number::{Number, Rat};
use crate::print::{print_expression, printed};
use crate::simplify::{simp, simplify};
use crate::taylor::{
    build_polynomial, derivative_table, derivatives, exact_coefficients, exact_coefficients_of,
    lemma_nth_deriv_error, lemma_nth_deriv_well_formed, nth_deriv, poly_terms, polynomial,
    sum_chain, table_fits,
};
use crate::text::str_eq;

verus! {

/// The error of a variable name, if it is not a usable identifier.
pub open spec fn variable_error(name: Seq<char>) -> Option<ErrorCode> {
    if !valid_identifier(name) {
        Some(ErrorCode::MalformedInput)
    } else if is_keyword(name) {
        Some(ErrorCode::DomainViolation)
    } else {
        None
    }
}

/// The derivative order: one by default; it must be a `u32` and at most the
/// series term limit.
pub open spec fn order_value(order: Option<int>, max_terms: int) -> Result<nat, ErrorCode> {
    let k = match order {
        Some(k) => k,
        None => 1,
    };
    if k < 0 || k > u32::MAX {
        Err(ErrorCode::DomainViolation)
    } else if k > max_terms {
        Err(ErrorCode::ResourceLimit)
    } else {
        Ok(k as nat)
    }
}

/// The printed, simplified derivative of order `order`, or the first error
/// in the order the arguments are checked.
pub open spec fn derivative_result(e: ExprV, v: Seq<char>, order: Option<int>, max_terms: int) -> Result<
    Seq<char>,
    ErrorCode,
> {
    if variable_error(v) is Some {
        Err(variable_error(v)->Some_0)
    } else if order_value(order, max_terms) is Err {
        Err(order_value(order, max_terms)->Err_0)
    } else if !is_numeric(e) {
        Err(ErrorCode::MalformedInput)
    } else if !calls_known(e) {
        Err(ErrorCode::UnknownFunction)
    } else {
        match nth_deriv(e, v, order_value(order, max_terms)->Ok_0) {
            Err(c) => Err(c),
            Ok(d) => Ok(printed(simp(d), 0)),
        }
    }
}

fn check_variable(variable: &str) -> (r: Result<(), EngineError>)
    ensures
        r is Ok <==> variable_error(variable@) is None,
        r matches Err(e) ==> variable_error(variable@) == Some(e.code),
{
    validate_variable_name(variable)
}

fn check_order(order: Option<i64>, limits: &Limits) -> (r: Result<u32, EngineError>)
    ensures
        match r {
            Ok(k) => order_value(
                match order {
                    Some(k) => Some(k as int),
                    None => None,
                },
                limits.max_series_terms as int,
            ) == Ok::<nat, ErrorCode>(k as nat),
            Err(e) => order_value(
                match order {
                    Some(k) => Some(k as int),
                    None => None,
                },
                limits.max_series_terms as int,
            ) == Err::<nat, ErrorCode>(e.code),
        },
{
    let k: i64 = match order {
        Some(k) => k,
        None => 1,
    };
    if k < 0 || k > 4294967295 {
        return Err(EngineError::domain("order must be a non-negative integer"));
    }
    if k as u64 > limits.max_series_terms {
        return Err(EngineError::new(ErrorCode::ResourceLimit, "order exceeds the series term limit"));
    }
    Ok(k as u32)
}

pub open spec fn order_view(order: Option<i64>) -> Option<int> {
    match order {
        Some(k) => Some(k as int),
        None => None,
    }
}

/// The work limit suffices for every walk of a derivative request: the
/// validations, each differentiation, the simplification and the printing.
pub open spec fn derivative_fits(e: ExprV, v: Seq<char>, n: nat, max: int) -> bool {
    &&& size(e) <= max
    &&& forall|k: nat|
        k < n ==> (#[trigger] nth_deriv(e, v, k) matches Ok(d) ==> crate::differentiate::dcost(d)
            <= max)
    &&& nth_deriv(e, v, n) matches Ok(d) ==> crate::simplify::scost(d) <= max && size(simp(d))
        <= max
}

/// Differentiate `order` times (once by default) with respect to `variable`,
/// simplify, and print.
pub fn derivative_text(expression: &Expr, variable: &str, order: Option<i64>, limits: &Limits) -> (r:
    Result<String, EngineError>)
    requires
        well_formed(expression@),
    ensures
        r matches Ok(text) ==> derivative_result(
            expression@,
            variable@,
            order_view(order),
            limits.max_series_terms as int,
        ) == Ok::<Seq<char>, ErrorCode>(text@),
        r matches Err(e) ==> e.code == ErrorCode::ResourceLimit || derivative_result(
            expression@,
            variable@,
            order_view(order),
            limits.max_series_terms as int,
        ) == Err::<Seq<char>, ErrorCode>(e.code),
        derivative_result(expression@, variable@, order_view(order), limits.max_series_terms as int)
            is Ok && derivative_fits(
            expression@,
            variable@,
            order_value(order_view(order), limits.max_series_terms as int)->Ok_0,
            limits.max_operations as int,
        ) ==> r is Ok,
{
    let ghost e = expression@;
    let ghost v = variable@;
    let ghost fits = derivative_result(e, v, order_view(order), limits.max_series_terms as int)
        is Ok && derivative_fits(
        e,
        v,
        order_value(order_view(order), limits.max_series_terms as int)->Ok_0,
        limits.max_operations as int,
    );
    check_variable(variable)?;
    let n = check_order(order, limits)?;
    validate_numeric_expression(expression, limits)?;
    validate_calls(expression, limits)?;
    let mut current = clone_expr(expression);
    let mut k: u32 = 0;
    while k < n
        invariant
            k <= n,
            e == expression@,
            v == variable@,
            well_formed(e),
            variable_error(v) is None,
            order_value(order_view(order), limits.max_series_terms as int) == Ok::<nat, ErrorCode>(
                n as nat,
            ),
            is_numeric(e),
            calls_known(e),
            nth_deriv(e, v, k as nat) == Ok::<ExprV, ErrorCode>(current@),
            fits == (derivative_result(e, v, order_view(order), limits.max_series_terms as int)
                is Ok && derivative_fits(e, v, n as nat, limits.max_operations as int)),
        decreases n - k,
    {
        let next = match differentiate(&current, variable, limits) {
            Ok(d) => d,
            Err(err) => {
                proof {
                    assert(nth_deriv(e, v, (k + 1) as nat) == deriv(current@, v));
                    if err.code != ErrorCode::ResourceLimit {
                        lemma_nth_deriv_error(e, v, (k + 1) as nat, n as nat);
                    }
                    if fits {
                        assert(nth_deriv(e, v, k as nat) matches Ok(d) ==> crate::differentiate::dcost(d)
                            <= limits.max_operations);
                    }
                }
                return Err(err);
            },
        };
        current = next;
        k = k + 1;
    }
    proof {
        lemma_nth_deriv_well_formed(e, v, n as nat);
    }
    let simplified = simplify(&current, limits)?;
    print_expression(&simplified, limits)
}

/// Simplify and print.
pub fn simplify_text(expression: &Expr, limits: &Limits) -> (r: Result<String, EngineError>)
    requires
        well_formed(expression@),
    ensures
        r matches Ok(text) ==> text@ == printed(simp(expression@), 0),
        r matches Err(e) ==> e.code == ErrorCode::ResourceLimit,
        crate::simplify::scost(expression@) <= limits.max_operations && size(simp(expression@))
            <= limits.max_operations ==> r is Ok,
{
    let simplified = simplify(expression, limits)?;
    print_expression(&simplified, limits)
}

/// Print with minimal parentheses.
pub fn print_text(expression: &Expr, limits: &Limits) -> (r: Result<String, EngineError>)
    requires
        well_formed(expression@),
    ensures
        r matches Ok(text) ==> text@ == printed(expression@, 0),
        r matches Err(e) ==> e.code == ErrorCode::ResourceLimit,
        size(expression@) <= limits.max_operations ==> r is Ok,
{
    print_expression(expression, limits)
}

/// The printed substitution of `replacement` for `variable`, not simplified.
pub open spec fn substitute_result(e: ExprV, v: Seq<char>, replacement: ExprV) -> Result<
    Seq<char>,
    ErrorCode,
> {
    if variable_error(v) is Some {
        Err(variable_error(v)->Some_0)
    } else {
        Ok(printed(subst(e, v, replacement), 0))
    }
}

/// Replace every reference to `variable` by `replacement` and print.
pub fn substitute_text(expression: &Expr, variable: &str, replacement: &Expr, limits: &Limits) -> (r:
    Result<String, EngineError>)
    requires
        well_formed(expression@),
        well_formed(replacement@),
    ensures
        r matches Ok(text) ==> substitute_result(expression@, variable@, replacement@) == Ok::<
            Seq<char>,
            ErrorCode,
        >(text@),
        r matches Err(e) ==> e.code == ErrorCode::ResourceLimit || substitute_result(
            expression@,
            variable@,
            replacement@,
        ) == Err::<Seq<char>, ErrorCode>(e.code),
        substitute_result(expression@, variable@, replacement@) is Ok && size(expression@)
            <= limits.max_operations && size(subst(expression@, variable@, replacement@))
            <= limits.max_operations ==> r is Ok,
{
    check_variable(variable)?;
    let substituted = substitute(expression, variable, replacement, limits)?;
    proof {
        lemma_subst_well_formed(expression@, variable@, replacement@);
    }
    print_expression(&substituted, limits)
}

/// The sorted, unique free variable names; `pi` and `e` are constants.
pub fn free_variables(expression: &Expr, limits: &Limits) -> (r: Result<Vec<String>, EngineError>)
    ensures
        r matches Ok(names) ==> sorted_names(names_view(names@)) && names_view(names@).to_set()
            == free_vars(expression@),
        r matches Err(e) ==> e.code == ErrorCode::ResourceLimit,
        size(expression@) <= limits.max_operations ==> r is Ok,
{
    collect_free_variables(expression, limits)
}

/// A Taylor expansion: exact coefficients with the printed polynomial, or the
/// simplified derivatives left to a binary64 evaluation.
pub enum TaylorOutcome {
    Exact { coefficients: Vec<Number>, polynomial: String },
    Approximate { derivatives: Vec<Expr> },
}

pub enum TaylorView {
    Exact { coefficients: Seq<Rat>, polynomial: Seq<char> },
    Approximate { derivatives: Seq<ExprV> },
}

impl View for TaylorOutcome {
    type V = TaylorView;

    open spec fn view(&self) -> TaylorView {
        match self {
            TaylorOutcome::Exact { coefficients, polynomial } => TaylorView::Exact {
                coefficients: nums_view(coefficients@),
                polynomial: polynomial@,
            },
            TaylorOutcome::Approximate { derivatives } => TaylorView::Approximate {
                derivatives: exprs_view(derivatives@),
            },
        }
    }
}

/// The Taylor expansion of `e` in `v` around `at` up to `order`, or the first
/// error in the order the arguments are checked. An expansion without exact
/// coefficients is refused in exact mode.
pub open spec fn taylor_result(
    e: ExprV,
    v: Seq<char>,
    at: Rat,
    order: nat,
    mode: NumericMode,
    max_terms: int,
) -> Result<TaylorView, ErrorCode> {
    if variable_error(v) is Some {
        Err(variable_error(v)->Some_0)
    } else if order > max_terms {
        Err(ErrorCode::ResourceLimit)
    } else if !is_numeric(e) {
        Err(ErrorCode::MalformedInput)
    } else if !calls_known(e) {
        Err(ErrorCode::UnknownFunction)
    } else if !free_vars(e).subset_of(set![v]) {
        Err(ErrorCode::NotFound)
    } else {
        match derivative_table(e, v, order) {
            Err(c) => Err(c),
            Ok(ds) => expansion_of(ds, v, at, mode),
        }
    }
}

/// The expansion of a table of simplified derivatives: exact when every
/// coefficient is, refused in exact mode otherwise, else left to binary64.
pub open spec fn expansion_of(ds: Seq<ExprV>, v: Seq<char>, at: Rat, mode: NumericMode) -> Result<
    TaylorView,
    ErrorCode,
> {
    match exact_coefficients(ds, v, at) {
        Ok(cs) => Ok(
            TaylorView::Exact { coefficients: cs, polynomial: printed(polynomial(cs, v, at), 0) },
        ),
        Err(Some(c)) => Err(c),
        Err(None) => if mode == NumericMode::Exact {
            Err(ErrorCode::UnsupportedNumericMode)
        } else {
            Ok(TaylorView::Approximate { derivatives: ds })
        },
    }
}

/// The work limit suffices for evaluating a derivative table and printing
/// its polynomial.
pub open spec fn expansion_fits(ds: Seq<ExprV>, v: Seq<char>, at: Rat, max: int) -> bool {
    &&& forall|i: int| 0 <= i < ds.len() ==> size(#[trigger] ds[i]) <= max
    &&& exact_coefficients(ds, v, at) matches Ok(cs) ==> {
        &&& crate::simplify::scost(sum_chain(poly_terms(cs, v, at))) <= max
        &&& size(polynomial(cs, v, at)) <= max
    }
}

fn expand_table(table: Vec<Expr>, variable: &str, at: &Number, mode: NumericMode, limits: &Limits) -> (r:
    Result<TaylorOutcome, EngineError>)
    ensures
        r matches Ok(t) ==> expansion_of(exprs_view(table@), variable@, at@, mode) == Ok::<
            TaylorView,
            ErrorCode,
        >(t@),
        r matches Err(e) ==> e.code == ErrorCode::ResourceLimit || expansion_of(
            exprs_view(table@),
            variable@,
            at@,
            mode,
        ) == Err::<TaylorView, ErrorCode>(e.code),
        expansion_of(exprs_view(table@), variable@, at@, mode) is Ok && expansion_fits(
            exprs_view(table@),
            variable@,
            at@,
            limits.max_operations as int,
        ) ==> r is Ok,
{
    proof {
        lemma_exprs_view(table@);
        if expansion_fits(exprs_view(table@), variable@, at@, limits.max_operations as int) {
            assert forall|i: int| 0 <= i < table.len() implies size(#[trigger] table@[i]@)
                <= limits.max_operations by {
                assert(exprs_view(table@)[i] == table@[i]@);
            }
        }
    }
    match exact_coefficients_of(&table, variable, at, limits) {
        Ok(coefficients) => {
            let poly = build_polynomial(&coefficients, variable, at, limits)?;
            let text = print_expression(&poly, limits)?;
            Ok(TaylorOutcome::Exact { coefficients, polynomial: text })
        },
        Err(Some(e)) => Err(e),
        Err(None) => {
            if mode == NumericMode::Exact {
                return Err(EngineError::new(
                    ErrorCode::UnsupportedNumericMode,
                    "the expansion point has no exact rational value at this order",
                ));
            }
            Ok(TaylorOutcome::Approximate { derivatives: table })
        },
    }
}

/// Reject an expression that mentions a variable other than `variable`
/// (besides the constants `pi` and `e`).
fn check_free_variables(expression: &Expr, variable: &str, limits: &Limits) -> (r: Result<
    (),
    EngineError,
>)
    ensures
        r is Ok ==> free_vars(expression@).subset_of(set![variable@]),
        r matches Err(e) ==> e.code == ErrorCode::ResourceLimit || (e.code == ErrorCode::NotFound
            && !free_vars(expression@).subset_of(set![variable@])),
        size(expression@) <= limits.max_operations ==> !(r matches Err(e) && e.code
            == ErrorCode::ResourceLimit),
{
    let names = collect_free_variables(expression, limits)?;
    let ghost all = names_view(names@);
    let mut i: usize = 0;
    while i < names.len()
        invariant
            i <= names.len(),
            all == names_view(names@),
            all.to_set() == free_vars(expression@),
            forall|j: int| 0 <= j < i ==> #[trigger] names@[j]@ == variable@,
        decreases names.len() - i,
    {
        if !str_eq(names[i].as_str(), variable) {
            assert(all[i as int] == names@[i as int]@);
            assert(all.to_set().contains(all[i as int]));
            return Err(EngineError::new(ErrorCode::NotFound, "the expression mentions an unknown variable"));
        }
        i = i + 1;
    }
    assert forall|x: Seq<char>| free_vars(expression@).contains(x) implies set![variable@].contains(
        x,
    ) by {
        assert(all.to_set().contains(x));
        let j = choose|j: int| 0 <= j < all.len() && all[j] == x;
        assert(all[j] == names@[j]@);
    }
    Ok(())
}

/// The work limit suffices for every walk of a Taylor request.
pub open spec fn taylor_fits(e: ExprV, v: Seq<char>, at: Rat, n: nat, max: int) -> bool {
    &&& size(e) <= max
    &&& table_fits(e, v, n, max)
    &&& derivative_table(e, v, n) matches Ok(ds) ==> expansion_fits(ds, v, at, max)
}

/// Taylor coefficients `f^(k)(at) / k!` for `k = 0..=order`.
pub fn taylor_expansion(
    expression: &Expr,
    variable: &str,
    at: &Number,
    order: u32,
    mode: NumericMode,
    limits: &Limits,
) -> (r: Result<TaylorOutcome, EngineError>)
    requires
        well_formed(expression@),
    ensures
        r matches Ok(t) ==> taylor_result(
            expression@,
            variable@,
            at@,
            order as nat,
            mode,
            limits.max_series_terms as int,
        ) == Ok::<TaylorView, ErrorCode>(t@),
        r matches Err(e) ==> e.code == ErrorCode::ResourceLimit || taylor_result(
            expression@,
            variable@,
            at@,
            order as nat,
            mode,
            limits.max_series_terms as int,
        ) == Err::<TaylorView, ErrorCode>(e.code),
        taylor_result(
            expression@,
            variable@,
            at@,
            order as nat,
            mode,
            limits.max_series_terms as int,
        ) is Ok && taylor_fits(expression@, variable@, at@, order as nat, limits.max_operations as int)
            ==> r is Ok,
{
    check_variable(variable)?;
    if order as u64 > limits.max_series_terms {
        return Err(EngineError::new(ErrorCode::ResourceLimit, "order exceeds the series term limit"));
    }
    validate_numeric_expression(expression, limits)?;
    validate_calls(expression, limits)?;
    check_free_variables(expression, variable, limits)?;
    let table = derivatives(expression, variable, order, limits)?;
    expand_table(table, variable, at, mode, limits)
}

} // verus!
