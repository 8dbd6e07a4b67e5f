//! Shared expression helpers: constructors, validation, traversal, and
//! substitution.
use vstd::prelude::*;
use crate::error::{budget_ok, exhausted, Budget, EngineError, ErrorCode, Limits};
use crate::expr::{
    clone_expr, clone_name, clone_ops, arg_values_view, exprs_view, field_values_view, lemma_arg_values_view, lemma_exprs_view,
    lemma_field_values_view, name_view, BinaryOp, CallArg, Expr, ExprV, UnaryOp,
};
use crate::number::{rat_int, rat_neg, Number, Rat};
use crate::text::{lex_lt, lemma_lex_total, str_eq, str_lt};
use vstd::string::*;

verus! {

// ---------------------------------------------------------------------------
// Names
// ---------------------------------------------------------------------------

/// The built-in constants `pi` and `e`.
pub open spec fn is_constant_name(s: Seq<char>) -> bool {
    s == "pi"@ || s == "e"@
}

/// The functions the symbolic layer differentiates and evaluates.
pub open spec fn is_supported_name(s: Seq<char>) -> bool {
    ||| s == "sin"@
    ||| s == "cos"@
    ||| s == "tan"@
    ||| s == "asin"@
    ||| s == "acos"@
    ||| s == "atan"@
    ||| s == "sinh"@
    ||| s == "cosh"@
    ||| s == "tanh"@
    ||| s == "exp"@
    ||| s == "ln"@
    ||| s == "log"@
    ||| s == "log10"@
    ||| s == "log2"@
    ||| s == "sqrt"@
    ||| s == "abs"@
    ||| s == "pow"@
}

/// Whether `name` is one of the built-in constants `pi` and `e`.
pub fn is_constant(name: &str) -> (r: bool)
    ensures
        r == is_constant_name(name@),
{
    str_eq(name, "pi") || str_eq(name, "e")
}

/// Whether `name` is a function the symbolic layer knows.
pub fn is_supported_function(name: &str) -> (r: bool)
    ensures
        r == is_supported_name(name@),
{
    str_eq(name, "sin") || str_eq(name, "cos") || str_eq(name, "tan") || str_eq(name, "asin")
        || str_eq(name, "acos") || str_eq(name, "atan") || str_eq(name, "sinh") || str_eq(
        name,
        "cosh",
    ) || str_eq(name, "tanh") || str_eq(name, "exp") || str_eq(name, "ln") || str_eq(
        name,
        "log",
    ) || str_eq(name, "log10") || str_eq(name, "log2") || str_eq(name, "sqrt") || str_eq(
        name,
        "abs",
    ) || str_eq(name, "pow")
}

pub open spec fn is_ascii_letter(c: char) -> bool {
    ('a' <= c && c <= 'z') || ('A' <= c && c <= 'Z')
}

pub open spec fn is_ascii_digit(c: char) -> bool {
    '0' <= c && c <= '9'
}

pub open spec fn is_identifier_char(c: char) -> bool {
    is_ascii_letter(c) || is_ascii_digit(c) || c == '_'
}

/// An ASCII identifier: a letter or underscore, then letters, digits, and
/// underscores.
pub open spec fn valid_identifier(s: Seq<char>) -> bool {
    &&& s.len() > 0
    &&& (is_ascii_letter(s[0]) || s[0] == '_')
    &&& forall|i: int| 0 <= i < s.len() ==> #[trigger] is_identifier_char(s[i])
}

/// The reserved words of the grammar.
pub open spec fn is_keyword(s: Seq<char>) -> bool {
    s == "true"@ || s == "false"@ || s == "and"@ || s == "or"@ || s == "not"@
}

fn char_is_letter(c: char) -> (r: bool)
    ensures
        r == is_ascii_letter(c),
{
    ('a' <= c && c <= 'z') || ('A' <= c && c <= 'Z')
}

fn char_is_identifier(c: char) -> (r: bool)
    ensures
        r == is_identifier_char(c),
{
    char_is_letter(c) || ('0' <= c && c <= '9') || c == '_'
}

/// Validate a differentiation or substitution variable name.
pub fn validate_variable_name(name: &str) -> (r: Result<(), EngineError>)
    ensures
        r is Ok <==> (valid_identifier(name@) && !is_keyword(name@)),
        r matches Err(e) ==> (e.code == ErrorCode::MalformedInput <==> !valid_identifier(name@)),
        r matches Err(e) ==> (e.code == ErrorCode::DomainViolation <==> valid_identifier(name@)),
{
    let n = name.unicode_len();
    if n == 0 {
        return Err(EngineError::malformed("invalid variable name: expected an identifier"));
    }
    let first = name.get_char(0);
    if !(char_is_letter(first) || first == '_') {
        return Err(EngineError::malformed("invalid variable name: expected an identifier"));
    }
    let mut i: usize = 0;
    while i < n
        invariant
            n == name@.len(),
            i <= n,
            forall|j: int| 0 <= j < i ==> #[trigger] is_identifier_char(name@[j]),
        decreases n - i,
    {
        if !char_is_identifier(name.get_char(i)) {
            return Err(EngineError::malformed("invalid variable name: expected an identifier"));
        }
        i = i + 1;
    }
    if str_eq(name, "true") || str_eq(name, "false") || str_eq(name, "and") || str_eq(name, "or")
        || str_eq(name, "not") {
        return Err(EngineError::domain("variable name is a reserved keyword"));
    }
    Ok(())
}

// ---------------------------------------------------------------------------
// Constructors
// ---------------------------------------------------------------------------

/// A number literal, written as the negation of its absolute value when it
/// is negative.
pub open spec fn number_node(q: Rat) -> ExprV {
    if q.num < 0 {
        ExprV::Unary { op: UnaryOp::Neg, arg: Box::new(ExprV::Number(rat_neg(q))) }
    } else {
        ExprV::Number(q)
    }
}

pub open spec fn int_node(v: int) -> ExprV {
    ExprV::Number(rat_int(v))
}

pub open spec fn binary_node(op: BinaryOp, left: ExprV, right: ExprV) -> ExprV {
    ExprV::Binary { op, left: Box::new(left), right: Box::new(right) }
}

pub open spec fn unnamed(n: nat) -> Seq<Option<Seq<char>>> {
    Seq::new(n, |i: int| None)
}

pub open spec fn call_node(name: Seq<char>, args: Seq<ExprV>) -> ExprV {
    ExprV::Call { name, arg_names: unnamed(args.len()), args }
}

pub open spec fn call1_node(name: Seq<char>, arg: ExprV) -> ExprV {
    call_node(name, seq![arg])
}

/// Negation that folds literals and double negation.
pub open spec fn negated(e: ExprV) -> ExprV {
    match e {
        ExprV::Number(q) => number_node(rat_neg(q)),
        ExprV::Unary { op: UnaryOp::Neg, arg } => *arg,
        other => ExprV::Unary { op: UnaryOp::Neg, arg: Box::new(other) },
    }
}

pub open spec fn is_zero_node(e: ExprV) -> bool {
    e matches ExprV::Number(q) && q.num == 0
}

pub open spec fn is_one_node(e: ExprV) -> bool {
    e matches ExprV::Number(q) && q == rat_int(1)
}

/// Build the expression of a number.
pub fn number_expr(value: Number) -> (r: Expr)
    ensures
        r@ == number_node(value@),
{
    if value.is_negative() {
        let inner = Expr::Number(value.neg());
        assert(inner@ == ExprV::Number(rat_neg(value@)));
        Expr::Unary { op: UnaryOp::Neg, expr: Box::new(inner) }
    } else {
        Expr::Number(value)
    }
}

pub fn int_expr(v: i64) -> (r: Expr)
    ensures
        r@ == int_node(v as int),
{
    Expr::Number(Number::from_i64(v))
}

pub fn zero_expr() -> (r: Expr)
    ensures
        r@ == int_node(0),
{
    int_expr(0)
}

pub fn one_expr() -> (r: Expr)
    ensures
        r@ == int_node(1),
{
    int_expr(1)
}

/// Negate an expression, folding numeric literals and double negation.
pub fn negate(expr: Expr) -> (r: Expr)
    ensures
        r@ == negated(expr@),
{
    match expr {
        Expr::Number(value) => number_expr(value.neg()),
        Expr::Unary { op: UnaryOp::Neg, expr } => *expr,
        other => Expr::Unary { op: UnaryOp::Neg, expr: Box::new(other) },
    }
}

pub fn is_zero(expr: &Expr) -> (r: bool)
    ensures
        r == is_zero_node(expr@),
{
    match expr {
        Expr::Number(value) => value.is_zero(),
        _ => false,
    }
}

pub fn is_one(expr: &Expr) -> (r: bool)
    ensures
        r == is_one_node(expr@),
{
    match expr {
        Expr::Number(value) => value.is_one(),
        _ => false,
    }
}

pub fn binary(op: BinaryOp, left: Expr, right: Expr) -> (r: Expr)
    ensures
        r@ == binary_node(op, left@, right@),
{
    Expr::Binary { op, left: Box::new(left), right: Box::new(right) }
}

pub fn add_expr(left: Expr, right: Expr) -> (r: Expr)
    ensures
        r@ == binary_node(BinaryOp::Add, left@, right@),
{
    binary(BinaryOp::Add, left, right)
}

pub fn sub_expr(left: Expr, right: Expr) -> (r: Expr)
    ensures
        r@ == binary_node(BinaryOp::Sub, left@, right@),
{
    binary(BinaryOp::Sub, left, right)
}

pub fn mul_expr(left: Expr, right: Expr) -> (r: Expr)
    ensures
        r@ == binary_node(BinaryOp::Mul, left@, right@),
{
    binary(BinaryOp::Mul, left, right)
}

pub fn div_expr(left: Expr, right: Expr) -> (r: Expr)
    ensures
        r@ == binary_node(BinaryOp::Div, left@, right@),
{
    binary(BinaryOp::Div, left, right)
}

pub fn pow_expr(left: Expr, right: Expr) -> (r: Expr)
    ensures
        r@ == binary_node(BinaryOp::Pow, left@, right@),
{
    binary(BinaryOp::Pow, left, right)
}

/// A call with one unnamed argument.
pub fn call1(name: &str, arg: Expr) -> (r: Expr)
    ensures
        r@ == call1_node(name@, arg@),
{
    let mut args: Vec<CallArg> = Vec::new();
    args.push(CallArg { name: None, value: arg });
    let r = Expr::Call { name: String::from_str(name), args };
    proof {
        lemma_arg_values_view(args@);
        assert(arg_values_view(args@) =~= seq![arg@]);
        assert(args@.map_values(|a: CallArg| name_view(a.name)) =~= unnamed(1));
    }
    r
}

// ---------------------------------------------------------------------------
// Sizes
// ---------------------------------------------------------------------------

/// Number of nodes of an expression (record keys and call names excluded).
pub open spec fn size(e: ExprV) -> nat
    decreases e,
{
    match e {
        ExprV::Array(items) => 1 + sizes(items),
        ExprV::Record { values, .. } => 1 + sizes(values),
        ExprV::Unary { arg, .. } => 1 + size(*arg),
        ExprV::Binary { left, right, .. } => 1 + size(*left) + size(*right),
        ExprV::Compare { operands, .. } => 1 + sizes(operands),
        ExprV::Call { args, .. } => 1 + sizes(args),
        _ => 1,
    }
}

pub open spec fn sizes(s: Seq<ExprV>) -> nat
    decreases s,
{
    if s.len() == 0 {
        0
    } else {
        sizes(s.drop_last()) + size(s.last())
    }
}

pub proof fn lemma_sizes_step(s: Seq<ExprV>, i: int)
    requires
        0 <= i < s.len(),
    ensures
        sizes(s.subrange(0, i + 1)) == sizes(s.subrange(0, i)) + size(s[i]),
{
    assert(s.subrange(0, i + 1).drop_last() =~= s.subrange(0, i));
}

pub proof fn lemma_sizes_prefix(s: Seq<ExprV>, i: int)
    requires
        0 <= i <= s.len(),
    ensures
        sizes(s.subrange(0, i)) <= sizes(s),
    decreases s.len() - i,
{
    if i < s.len() {
        lemma_sizes_prefix(s, i + 1);
        lemma_sizes_step(s, i);
    } else {
        assert(s.subrange(0, i) =~= s);
    }
}

// ---------------------------------------------------------------------------
// Well-formed trees
// ---------------------------------------------------------------------------

/// Every comparison chain carries one operator between consecutive operands,
/// as the expression reader builds it.
pub open spec fn well_formed(e: ExprV) -> bool
    decreases e,
{
    match e {
        ExprV::Array(items) => all_well_formed(items),
        ExprV::Record { values, .. } => all_well_formed(values),
        ExprV::Unary { arg, .. } => well_formed(*arg),
        ExprV::Binary { left, right, .. } => well_formed(*left) && well_formed(*right),
        ExprV::Compare { operands, ops } => operands.len() == ops.len() + 1 && all_well_formed(
            operands,
        ),
        ExprV::Call { args, .. } => all_well_formed(args),
        _ => true,
    }
}

pub open spec fn all_well_formed(s: Seq<ExprV>) -> bool
    decreases s,
{
    if s.len() == 0 {
        true
    } else {
        all_well_formed(s.drop_last()) && well_formed(s.last())
    }
}

pub proof fn lemma_all_well_formed(s: Seq<ExprV>)
    ensures
        all_well_formed(s) <==> forall|i: int| 0 <= i < s.len() ==> #[trigger] well_formed(s[i]),
    decreases s.len(),
{
    if s.len() > 0 {
        lemma_all_well_formed(s.drop_last());
        if forall|i: int| 0 <= i < s.len() ==> #[trigger] well_formed(s[i]) {
            assert forall|i: int| 0 <= i < s.len() - 1 implies #[trigger] well_formed(
                s.drop_last()[i],
            ) by {
                assert(s.drop_last()[i] == s[i]);
            }
            assert(well_formed(s[s.len() - 1]));
        }
        if all_well_formed(s) {
            assert forall|i: int| 0 <= i < s.len() implies #[trigger] well_formed(s[i]) by {
                if i < s.len() - 1 {
                    assert(s.drop_last()[i] == s[i]);
                }
            }
        }
    }
}

/// Whether an expression is well formed: every comparison chain has one
/// more operand than operators.
pub fn is_well_formed(expr: &Expr) -> (r: bool)
    ensures
        r == well_formed(expr@),
    decreases expr,
{
    let ok = match expr {
        Expr::Array(items) => all_exprs_well_formed(items),
        Expr::Record(fields) => all_fields_well_formed(fields),
        Expr::Unary { expr: inner, .. } => is_well_formed(inner),
        Expr::Binary { left, right, .. } => {
            let a = is_well_formed(left);
            let b = is_well_formed(right);
            a && b
        },
        Expr::Compare { operands, ops } => {
            proof {
                lemma_exprs_view(operands@);
            }
            let n_ops = ops.len();
            let n_operands = operands.len();
            let shape = n_ops < usize::MAX && n_operands == n_ops + 1;
            let parts = all_exprs_well_formed(operands);
            shape && parts
        },
        Expr::Call { args, .. } => all_args_well_formed(args),
        _ => true,
    };
    ok
}

fn all_exprs_well_formed(xs: &Vec<Expr>) -> (r: bool)
    ensures
        r == all_well_formed(exprs_view(xs@)),
    decreases xs,
{
    let ghost views = exprs_view(xs@);
    proof {
        lemma_exprs_view(xs@);
        lemma_all_well_formed(views);
    }
    let mut i: usize = 0;
    while i < xs.len()
        invariant
            i <= xs.len(),
            views == exprs_view(xs@),
            views.len() == xs.len(),
            forall|j: int| 0 <= j < xs.len() ==> #[trigger] views[j] == xs@[j]@,
            all_well_formed(views) == forall|j: int|
                0 <= j < views.len() ==> #[trigger] well_formed(views[j]),
            forall|j: int| 0 <= j < i ==> #[trigger] well_formed(views[j]),
        decreases xs.len() - i,
    {
        if !is_well_formed(&xs[i]) {
            assert(!well_formed(views[i as int]));
            return false;
        }
        i = i + 1;
    }
    true
}

fn all_fields_well_formed(xs: &Vec<(String, Expr)>) -> (r: bool)
    ensures
        r == all_well_formed(field_values_view(xs@)),
    decreases xs,
{
    let ghost views = field_values_view(xs@);
    proof {
        lemma_field_values_view(xs@);
        lemma_all_well_formed(views);
    }
    let mut i: usize = 0;
    while i < xs.len()
        invariant
            i <= xs.len(),
            views == field_values_view(xs@),
            views.len() == xs.len(),
            forall|j: int| 0 <= j < xs.len() ==> #[trigger] views[j] == xs@[j].1@,
            all_well_formed(views) == forall|j: int|
                0 <= j < views.len() ==> #[trigger] well_formed(views[j]),
            forall|j: int| 0 <= j < i ==> #[trigger] well_formed(views[j]),
        decreases xs.len() - i,
    {
        if !is_well_formed(&xs[i].1) {
            assert(!well_formed(views[i as int]));
            return false;
        }
        i = i + 1;
    }
    true
}

fn all_args_well_formed(xs: &Vec<CallArg>) -> (r: bool)
    ensures
        r == all_well_formed(arg_values_view(xs@)),
    decreases xs,
{
    let ghost views = arg_values_view(xs@);
    proof {
        lemma_arg_values_view(xs@);
        lemma_all_well_formed(views);
    }
    let mut i: usize = 0;
    while i < xs.len()
        invariant
            i <= xs.len(),
            views == arg_values_view(xs@),
            views.len() == xs.len(),
            forall|j: int| 0 <= j < xs.len() ==> #[trigger] views[j] == xs@[j].value@,
            all_well_formed(views) == forall|j: int|
                0 <= j < views.len() ==> #[trigger] well_formed(views[j]),
            forall|j: int| 0 <= j < i ==> #[trigger] well_formed(views[j]),
        decreases xs.len() - i,
    {
        if !is_well_formed(&xs[i].value) {
            assert(!well_formed(views[i as int]));
            return false;
        }
        i = i + 1;
    }
    true
}

// ---------------------------------------------------------------------------
// Numeric validation
// ---------------------------------------------------------------------------

pub open spec fn is_arithmetic(op: BinaryOp) -> bool {
    op != BinaryOp::And && op != BinaryOp::Or
}

/// A single real-valued numeric expression: numbers, names, signs,
/// arithmetic, and calls with numeric arguments.
pub open spec fn is_numeric(e: ExprV) -> bool
    decreases e,
{
    match e {
        ExprV::Number(_) => true,
        ExprV::Ident(_) => true,
        ExprV::Unary { op, arg } => op != UnaryOp::Not && is_numeric(*arg),
        ExprV::Binary { op, left, right } => is_arithmetic(op) && is_numeric(*left) && is_numeric(
            *right,
        ),
        ExprV::Call { args, .. } => all_numeric(args),
        _ => false,
    }
}

pub open spec fn all_numeric(s: Seq<ExprV>) -> bool
    decreases s,
{
    if s.len() == 0 {
        true
    } else {
        all_numeric(s.drop_last()) && is_numeric(s.last())
    }
}

pub proof fn lemma_all_numeric(s: Seq<ExprV>)
    ensures
        all_numeric(s) == forall|i: int| 0 <= i < s.len() ==> #[trigger] is_numeric(s[i]),
    decreases s.len(),
{
    if s.len() > 0 {
        let d = s.drop_last();
        lemma_all_numeric(d);
        if forall|i: int| 0 <= i < s.len() ==> #[trigger] is_numeric(s[i]) {
            assert forall|i: int| 0 <= i < d.len() implies #[trigger] is_numeric(d[i]) by {
                assert(d[i] == s[i]);
            }
            assert(is_numeric(s[s.len() - 1]));
        }
        if all_numeric(s) {
            assert forall|i: int| 0 <= i < s.len() implies #[trigger] is_numeric(s[i]) by {
                if i < s.len() - 1 {
                    assert(d[i] == s[i]);
                }
            }
        }
    }
}

/// Reject expressions that are not single real-valued numeric expressions.
pub fn validate_numeric_expression(expr: &Expr, limits: &Limits) -> (r: Result<(), EngineError>)
    ensures
        r is Ok ==> is_numeric(expr@),
        r matches Err(e) ==> e.code == ErrorCode::ResourceLimit || (e.code
            == ErrorCode::MalformedInput && !is_numeric(expr@)),
        size(expr@) <= limits.max_operations ==> !exhausted(r),
{
    let mut budget = Budget::new(limits.max_operations);
    validate_numeric_inner(expr, &mut budget)
}

pub fn validate_numeric_inner(expr: &Expr, budget: &mut Budget) -> (r: Result<(), EngineError>)
    ensures
        budget_ok(*old(budget), *final(budget), size(expr@) as int, exhausted(r)),
        r is Ok ==> is_numeric(expr@),
        r matches Err(e) ==> e.code == ErrorCode::ResourceLimit || (e.code
            == ErrorCode::MalformedInput && !is_numeric(expr@)),
    decreases expr,
{
    budget.tick()?;
    match expr {
        Expr::Number(_) | Expr::Ident(_) => Ok(()),
        Expr::Unary { op, expr: inner } => {
            if *op == UnaryOp::Not {
                return Err(
                    EngineError::malformed(
                        "logical negation is not valid in a symbolic numeric expression",
                    ),
                );
            }
            validate_numeric_inner(inner, budget)
        },
        Expr::Binary { op, left, right } => {
            if *op == BinaryOp::And || *op == BinaryOp::Or {
                return Err(
                    EngineError::malformed(
                        "logical operators are not valid in a symbolic numeric expression",
                    ),
                );
            }
            validate_numeric_inner(left, budget)?;
            validate_numeric_inner(right, budget)
        },
        Expr::Call { args, .. } => validate_numeric_args(args, budget),
        _ => Err(EngineError::malformed("symbolic functions require a single numeric expression")),
    }
}

fn validate_numeric_args(args: &Vec<CallArg>, budget: &mut Budget) -> (r: Result<(), EngineError>)
    ensures
        budget_ok(
            *old(budget),
            *final(budget),
            sizes(arg_values_view(args@)) as int,
            exhausted(r),
        ),
        r is Ok ==> all_numeric(arg_values_view(args@)),
        r matches Err(e) ==> e.code == ErrorCode::ResourceLimit || (e.code
            == ErrorCode::MalformedInput && !all_numeric(arg_values_view(args@))),
    decreases args,
{
    let ghost views = arg_values_view(args@);
    let ghost start = *budget;
    proof {
        lemma_arg_values_view(args@);
        lemma_all_numeric(views);
    }
    let mut i: usize = 0;
    while i < args.len()
        invariant
            i <= args.len(),
            views == arg_values_view(args@),
            views.len() == args.len(),
            forall|j: int| 0 <= j < args.len() ==> #[trigger] views[j] == args@[j].value@,
            all_numeric(views) == forall|j: int| 0 <= j < views.len() ==> #[trigger] is_numeric(views[j]),
            budget.limit() == old(budget).limit(),
            old(budget).spent() <= budget.spent(),
            budget.spent() <= old(budget).spent() + sizes(views.subrange(0, i as int)),
            forall|j: int| 0 <= j < i ==> #[trigger] is_numeric(views[j]),
        decreases args.len() - i,
    {
        proof {
            lemma_sizes_step(views, i as int);
            lemma_sizes_prefix(views, i as int + 1);
        }
        let checked = validate_numeric_inner(&args[i].value, budget);
        if checked.is_err() {
            return checked;
        }
        i = i + 1;
    }
    proof {
        assert(views.subrange(0, args.len() as int) =~= views);
    }
    Ok(())
}

// ---------------------------------------------------------------------------
// Known calls
// ---------------------------------------------------------------------------

/// Every call names a supported function.
pub open spec fn calls_known(e: ExprV) -> bool
    decreases e,
{
    match e {
        ExprV::Call { name, args, .. } => is_supported_name(name) && all_known(args),
        ExprV::Unary { arg, .. } => calls_known(*arg),
        ExprV::Binary { left, right, .. } => calls_known(*left) && calls_known(*right),
        ExprV::Compare { operands, .. } => all_known(operands),
        ExprV::Array(items) => all_known(items),
        ExprV::Record { values, .. } => all_known(values),
        _ => true,
    }
}

pub open spec fn all_known(s: Seq<ExprV>) -> bool
    decreases s,
{
    if s.len() == 0 {
        true
    } else {
        all_known(s.drop_last()) && calls_known(s.last())
    }
}

pub proof fn lemma_all_known(s: Seq<ExprV>)
    ensures
        all_known(s) == forall|i: int| 0 <= i < s.len() ==> #[trigger] calls_known(s[i]),
    decreases s.len(),
{
    if s.len() > 0 {
        let d = s.drop_last();
        lemma_all_known(d);
        if forall|i: int| 0 <= i < s.len() ==> #[trigger] calls_known(s[i]) {
            assert forall|i: int| 0 <= i < d.len() implies #[trigger] calls_known(d[i]) by {
                assert(d[i] == s[i]);
            }
            assert(calls_known(s[s.len() - 1]));
        }
        if all_known(s) {
            assert forall|i: int| 0 <= i < s.len() implies #[trigger] calls_known(s[i]) by {
                if i < s.len() - 1 {
                    assert(d[i] == s[i]);
                }
            }
        }
    }
}

/// Reject calls to functions the symbolic layer does not know.
pub fn validate_calls(expr: &Expr, limits: &Limits) -> (r: Result<(), EngineError>)
    ensures
        r is Ok ==> calls_known(expr@),
        r matches Err(e) ==> e.code == ErrorCode::ResourceLimit || (e.code
            == ErrorCode::UnknownFunction && !calls_known(expr@)),
        size(expr@) <= limits.max_operations ==> !exhausted(r),
{
    let mut budget = Budget::new(limits.max_operations);
    validate_calls_inner(expr, &mut budget)
}

pub fn validate_calls_inner(expr: &Expr, budget: &mut Budget) -> (r: Result<(), EngineError>)
    ensures
        budget_ok(*old(budget), *final(budget), size(expr@) as int, exhausted(r)),
        r is Ok ==> calls_known(expr@),
        r matches Err(e) ==> e.code == ErrorCode::ResourceLimit || (e.code
            == ErrorCode::UnknownFunction && !calls_known(expr@)),
    decreases expr,
{
    budget.tick()?;
    match expr {
        Expr::Call { name, args } => {
            if !is_supported_function(name.as_str()) {
                return Err(EngineError::new(ErrorCode::UnknownFunction, "unknown function"));
            }
            validate_calls_args(args, budget)
        },
        Expr::Unary { expr: inner, .. } => validate_calls_inner(inner, budget),
        Expr::Binary { left, right, .. } => {
            validate_calls_inner(left, budget)?;
            validate_calls_inner(right, budget)
        },
        Expr::Compare { operands, .. } => validate_calls_exprs(operands, budget),
        Expr::Array(items) => validate_calls_exprs(items, budget),
        Expr::Record(fields) => validate_calls_fields(fields, budget),
        _ => Ok(()),
    }
}

fn validate_calls_exprs(xs: &Vec<Expr>, budget: &mut Budget) -> (r: Result<(), EngineError>)
    ensures
        budget_ok(*old(budget), *final(budget), sizes(exprs_view(xs@)) as int, exhausted(r)),
        r is Ok ==> all_known(exprs_view(xs@)),
        r matches Err(e) ==> e.code == ErrorCode::ResourceLimit || (e.code
            == ErrorCode::UnknownFunction && !all_known(exprs_view(xs@))),
    decreases xs,
{
    let ghost views = exprs_view(xs@);
    proof {
        lemma_exprs_view(xs@);
        lemma_all_known(views);
    }
    let mut i: usize = 0;
    while i < xs.len()
        invariant
            i <= xs.len(),
            views == exprs_view(xs@),
            views.len() == xs.len(),
            forall|j: int| 0 <= j < xs.len() ==> #[trigger] views[j] == xs@[j]@,
            all_known(views) == forall|j: int| 0 <= j < views.len() ==> #[trigger] calls_known(views[j]),
            budget.limit() == old(budget).limit(),
            old(budget).spent() <= budget.spent(),
            budget.spent() <= old(budget).spent() + sizes(views.subrange(0, i as int)),
            forall|j: int| 0 <= j < i ==> #[trigger] calls_known(views[j]),
        decreases xs.len() - i,
    {
        proof {
            lemma_sizes_step(views, i as int);
            lemma_sizes_prefix(views, i as int + 1);
        }
        let checked = validate_calls_inner(&xs[i], budget);
        if checked.is_err() {
            return checked;
        }
        i = i + 1;
    }
    proof {
        assert(views.subrange(0, xs.len() as int) =~= views);
    }
    Ok(())
}

fn validate_calls_fields(xs: &Vec<(String, Expr)>, budget: &mut Budget) -> (r: Result<(), EngineError>)
    ensures
        budget_ok(*old(budget), *final(budget), sizes(field_values_view(xs@)) as int, exhausted(r)),
        r is Ok ==> all_known(field_values_view(xs@)),
        r matches Err(e) ==> e.code == ErrorCode::ResourceLimit || (e.code
            == ErrorCode::UnknownFunction && !all_known(field_values_view(xs@))),
    decreases xs,
{
    let ghost views = field_values_view(xs@);
    proof {
        lemma_field_values_view(xs@);
        lemma_all_known(views);
    }
    let mut i: usize = 0;
    while i < xs.len()
        invariant
            i <= xs.len(),
            views == field_values_view(xs@),
            views.len() == xs.len(),
            forall|j: int| 0 <= j < xs.len() ==> #[trigger] views[j] == xs@[j].1@,
            all_known(views) == forall|j: int| 0 <= j < views.len() ==> #[trigger] calls_known(views[j]),
            budget.limit() == old(budget).limit(),
            old(budget).spent() <= budget.spent(),
            budget.spent() <= old(budget).spent() + sizes(views.subrange(0, i as int)),
            forall|j: int| 0 <= j < i ==> #[trigger] calls_known(views[j]),
        decreases xs.len() - i,
    {
        proof {
            lemma_sizes_step(views, i as int);
            lemma_sizes_prefix(views, i as int + 1);
        }
        let checked = validate_calls_inner(&xs[i].1, budget);
        if checked.is_err() {
            return checked;
        }
        i = i + 1;
    }
    proof {
        assert(views.subrange(0, xs.len() as int) =~= views);
    }
    Ok(())
}

fn validate_calls_args(xs: &Vec<CallArg>, budget: &mut Budget) -> (r: Result<(), EngineError>)
    ensures
        budget_ok(*old(budget), *final(budget), sizes(arg_values_view(xs@)) as int, exhausted(r)),
        r is Ok ==> all_known(arg_values_view(xs@)),
        r matches Err(e) ==> e.code == ErrorCode::ResourceLimit || (e.code
            == ErrorCode::UnknownFunction && !all_known(arg_values_view(xs@))),
    decreases xs,
{
    let ghost views = arg_values_view(xs@);
    proof {
        lemma_arg_values_view(xs@);
        lemma_all_known(views);
    }
    let mut i: usize = 0;
    while i < xs.len()
        invariant
            i <= xs.len(),
            views == arg_values_view(xs@),
            views.len() == xs.len(),
            forall|j: int| 0 <= j < xs.len() ==> #[trigger] views[j] == xs@[j].value@,
            all_known(views) == forall|j: int| 0 <= j < views.len() ==> #[trigger] calls_known(views[j]),
            budget.limit() == old(budget).limit(),
            old(budget).spent() <= budget.spent(),
            budget.spent() <= old(budget).spent() + sizes(views.subrange(0, i as int)),
            forall|j: int| 0 <= j < i ==> #[trigger] calls_known(views[j]),
        decreases xs.len() - i,
    {
        proof {
            lemma_sizes_step(views, i as int);
            lemma_sizes_prefix(views, i as int + 1);
        }
        let checked = validate_calls_inner(&xs[i].value, budget);
        if checked.is_err() {
            return checked;
        }
        i = i + 1;
    }
    proof {
        assert(views.subrange(0, xs.len() as int) =~= views);
    }
    Ok(())
}
// ---------------------------------------------------------------------------
// Variable occurrence
// ---------------------------------------------------------------------------

/// The expression mentions the name `v`.
pub open spec fn contains_var(e: ExprV, v: Seq<char>) -> bool
    decreases e,
{
    match e {
        ExprV::Ident(name) => name == v,
        ExprV::Unary { arg, .. } => contains_var(*arg, v),
        ExprV::Binary { left, right, .. } => contains_var(*left, v) || contains_var(*right, v),
        ExprV::Compare { operands, .. } => any_contains(operands, v),
        ExprV::Call { args, .. } => any_contains(args, v),
        ExprV::Array(items) => any_contains(items, v),
        ExprV::Record { values, .. } => any_contains(values, v),
        _ => false,
    }
}

pub open spec fn any_contains(s: Seq<ExprV>, v: Seq<char>) -> bool
    decreases s,
{
    if s.len() == 0 {
        false
    } else {
        any_contains(s.drop_last(), v) || contains_var(s.last(), v)
    }
}

pub proof fn lemma_any_contains(s: Seq<ExprV>, v: Seq<char>)
    ensures
        any_contains(s, v) == exists|i: int| 0 <= i < s.len() && #[trigger] contains_var(s[i], v),
    decreases s.len(),
{
    if s.len() > 0 {
        let d = s.drop_last();
        lemma_any_contains(d, v);
        if exists|i: int| 0 <= i < s.len() && #[trigger] contains_var(s[i], v) {
            let i = choose|i: int| 0 <= i < s.len() && #[trigger] contains_var(s[i], v);
            if i < s.len() - 1 {
                assert(d[i] == s[i]);
                assert(contains_var(d[i], v));
            }
        }
        if any_contains(d, v) {
            let i = choose|i: int| 0 <= i < d.len() && #[trigger] contains_var(d[i], v);
            assert(d[i] == s[i]);
            assert(contains_var(s[i], v));
        }
        if contains_var(s.last(), v) {
            assert(contains_var(s[s.len() - 1], v));
        }
    }
}

/// Whether the expression mentions `variable`.
pub fn contains_variable(expr: &Expr, variable: &str, budget: &mut Budget) -> (r: Result<
    bool,
    EngineError,
>)
    ensures
        budget_ok(*old(budget), *final(budget), size(expr@) as int, exhausted(r)),
        r matches Ok(b) ==> b == contains_var(expr@, variable@),
        r matches Err(e) ==> e.code == ErrorCode::ResourceLimit,
{
    contains_variable_inner(expr, variable, budget)
}

fn contains_variable_inner(expr: &Expr, variable: &str, budget: &mut Budget) -> (r: Result<
    bool,
    EngineError,
>)
    ensures
        budget_ok(*old(budget), *final(budget), size(expr@) as int, exhausted(r)),
        r matches Ok(b) ==> b == contains_var(expr@, variable@),
        r matches Err(e) ==> e.code == ErrorCode::ResourceLimit,
    decreases expr,
{
    budget.tick()?;
    match expr {
        Expr::Ident(name) => Ok(str_eq(name.as_str(), variable)),
        Expr::Unary { expr: inner, .. } => contains_variable_inner(inner, variable, budget),
        Expr::Binary { left, right, .. } => {
            if contains_variable_inner(left, variable, budget)? {
                return Ok(true);
            }
            contains_variable_inner(right, variable, budget)
        },
        Expr::Compare { operands, .. } => contains_variable_exprs(operands, variable, budget),
        Expr::Call { args, .. } => contains_variable_args(args, variable, budget),
        Expr::Array(items) => contains_variable_exprs(items, variable, budget),
        Expr::Record(fields) => contains_variable_fields(fields, variable, budget),
        _ => Ok(false),
    }
}

fn contains_variable_exprs(xs: &Vec<Expr>, variable: &str, budget: &mut Budget) -> (r: Result<bool, EngineError>)
    ensures
        budget_ok(*old(budget), *final(budget), sizes(exprs_view(xs@)) as int, exhausted(r)),
        r matches Ok(b) ==> b == any_contains(exprs_view(xs@), variable@),
        r matches Err(e) ==> e.code == ErrorCode::ResourceLimit,
    decreases xs,
{
    let ghost views = exprs_view(xs@);
    proof {
        lemma_exprs_view(xs@);
        lemma_any_contains(views, variable@);
    }
    let mut i: usize = 0;
    while i < xs.len()
        invariant
            i <= xs.len(),
            views == exprs_view(xs@),
            views.len() == xs.len(),
            forall|j: int| 0 <= j < xs.len() ==> #[trigger] views[j] == xs@[j]@,
            any_contains(views, variable@) == exists|j: int| 0 <= j < views.len() && #[trigger] contains_var(views[j], variable@),
            budget.limit() == old(budget).limit(),
            old(budget).spent() <= budget.spent(),
            budget.spent() <= old(budget).spent() + sizes(views.subrange(0, i as int)),
            forall|j: int| 0 <= j < i ==> !#[trigger] contains_var(views[j], variable@),
        decreases xs.len() - i,
    {
        proof {
            lemma_sizes_step(views, i as int);
            lemma_sizes_prefix(views, i as int + 1);
        }
        let found = contains_variable_inner(&xs[i], variable, budget)?;
        if found {
            assert(contains_var(views[i as int], variable@));
            return Ok(true);
        }
        i = i + 1;
    }
    proof {
        assert(views.subrange(0, xs.len() as int) =~= views);
    }
    Ok(false)
}

fn contains_variable_fields(xs: &Vec<(String, Expr)>, variable: &str, budget: &mut Budget) -> (r: Result<bool, EngineError>)
    ensures
        budget_ok(*old(budget), *final(budget), sizes(field_values_view(xs@)) as int, exhausted(r)),
        r matches Ok(b) ==> b == any_contains(field_values_view(xs@), variable@),
        r matches Err(e) ==> e.code == ErrorCode::ResourceLimit,
    decreases xs,
{
    let ghost views = field_values_view(xs@);
    proof {
        lemma_field_values_view(xs@);
        lemma_any_contains(views, variable@);
    }
    let mut i: usize = 0;
    while i < xs.len()
        invariant
            i <= xs.len(),
            views == field_values_view(xs@),
            views.len() == xs.len(),
            forall|j: int| 0 <= j < xs.len() ==> #[trigger] views[j] == xs@[j].1@,
            any_contains(views, variable@) == exists|j: int| 0 <= j < views.len() && #[trigger] contains_var(views[j], variable@),
            budget.limit() == old(budget).limit(),
            old(budget).spent() <= budget.spent(),
            budget.spent() <= old(budget).spent() + sizes(views.subrange(0, i as int)),
            forall|j: int| 0 <= j < i ==> !#[trigger] contains_var(views[j], variable@),
        decreases xs.len() - i,
    {
        proof {
            lemma_sizes_step(views, i as int);
            lemma_sizes_prefix(views, i as int + 1);
        }
        let found = contains_variable_inner(&xs[i].1, variable, budget)?;
        if found {
            assert(contains_var(views[i as int], variable@));
            return Ok(true);
        }
        i = i + 1;
    }
    proof {
        assert(views.subrange(0, xs.len() as int) =~= views);
    }
    Ok(false)
}

fn contains_variable_args(xs: &Vec<CallArg>, variable: &str, budget: &mut Budget) -> (r: Result<bool, EngineError>)
    ensures
        budget_ok(*old(budget), *final(budget), sizes(arg_values_view(xs@)) as int, exhausted(r)),
        r matches Ok(b) ==> b == any_contains(arg_values_view(xs@), variable@),
        r matches Err(e) ==> e.code == ErrorCode::ResourceLimit,
    decreases xs,
{
    let ghost views = arg_values_view(xs@);
    proof {
        lemma_arg_values_view(xs@);
        lemma_any_contains(views, variable@);
    }
    let mut i: usize = 0;
    while i < xs.len()
        invariant
            i <= xs.len(),
            views == arg_values_view(xs@),
            views.len() == xs.len(),
            forall|j: int| 0 <= j < xs.len() ==> #[trigger] views[j] == xs@[j].value@,
            any_contains(views, variable@) == exists|j: int| 0 <= j < views.len() && #[trigger] contains_var(views[j], variable@),
            budget.limit() == old(budget).limit(),
            old(budget).spent() <= budget.spent(),
            budget.spent() <= old(budget).spent() + sizes(views.subrange(0, i as int)),
            forall|j: int| 0 <= j < i ==> !#[trigger] contains_var(views[j], variable@),
        decreases xs.len() - i,
    {
        proof {
            lemma_sizes_step(views, i as int);
            lemma_sizes_prefix(views, i as int + 1);
        }
        let found = contains_variable_inner(&xs[i].value, variable, budget)?;
        if found {
            assert(contains_var(views[i as int], variable@));
            return Ok(true);
        }
        i = i + 1;
    }
    proof {
        assert(views.subrange(0, xs.len() as int) =~= views);
    }
    Ok(false)
}
// ---------------------------------------------------------------------------
// Substitution
// ---------------------------------------------------------------------------

/// Every reference to `v` replaced by `r`.
pub open spec fn subst(e: ExprV, v: Seq<char>, r: ExprV) -> ExprV
    decreases e,
{
    match e {
        ExprV::Ident(name) => if name == v {
            r
        } else {
            e
        },
        ExprV::Unary { op, arg } => ExprV::Unary { op, arg: Box::new(subst(*arg, v, r)) },
        ExprV::Binary { op, left, right } => ExprV::Binary {
            op,
            left: Box::new(subst(*left, v, r)),
            right: Box::new(subst(*right, v, r)),
        },
        ExprV::Compare { operands, ops } => ExprV::Compare {
            operands: subst_seq(operands, v, r),
            ops,
        },
        ExprV::Call { name, arg_names, args } => ExprV::Call {
            name,
            arg_names,
            args: subst_seq(args, v, r),
        },
        ExprV::Array(items) => ExprV::Array(subst_seq(items, v, r)),
        ExprV::Record { keys, values } => ExprV::Record { keys, values: subst_seq(values, v, r) },
        _ => e,
    }
}

pub open spec fn subst_seq(s: Seq<ExprV>, v: Seq<char>, r: ExprV) -> Seq<ExprV>
    decreases s,
{
    if s.len() == 0 {
        Seq::empty()
    } else {
        subst_seq(s.drop_last(), v, r).push(subst(s.last(), v, r))
    }
}

pub proof fn lemma_subst_seq(s: Seq<ExprV>, v: Seq<char>, r: ExprV)
    ensures
        subst_seq(s, v, r).len() == s.len(),
        forall|i: int| 0 <= i < s.len() ==> #[trigger] subst_seq(s, v, r)[i] == subst(s[i], v, r),
    decreases s.len(),
{
    if s.len() > 0 {
        lemma_subst_seq(s.drop_last(), v, r);
    }
}

/// The sizes lemmas restated for walks whose cost does not depend on extra
/// parameters.
proof fn lemma_sizes_step_sub(s: Seq<ExprV>, i: int, v: Seq<char>, r: ExprV)
    requires
        0 <= i < s.len(),
    ensures
        sizes(s.subrange(0, i + 1)) == sizes(s.subrange(0, i)) + size(s[i]),
{
    lemma_sizes_step(s, i);
}

proof fn lemma_sizes_prefix_sub(s: Seq<ExprV>, i: int, v: Seq<char>, r: ExprV)
    requires
        0 <= i <= s.len(),
    ensures
        sizes(s.subrange(0, i)) <= sizes(s),
{
    lemma_sizes_prefix(s, i);
}

/// Structurally replace every reference to `variable` with `replacement`.
pub fn substitute(expr: &Expr, variable: &str, replacement: &Expr, limits: &Limits) -> (r: Result<
    Expr,
    EngineError,
>)
    ensures
        r matches Ok(x) ==> x@ == subst(expr@, variable@, replacement@),
        r matches Err(e) ==> e.code == ErrorCode::ResourceLimit,
        size(expr@) <= limits.max_operations ==> r is Ok,
{
    let mut budget = Budget::new(limits.max_operations);
    substitute_inner(expr, variable, replacement, &mut budget)
}

fn substitute_inner(expr: &Expr, variable: &str, replacement: &Expr, budget: &mut Budget) -> (r:
    Result<Expr, EngineError>)
    ensures
        budget_ok(*old(budget), *final(budget), size(expr@) as int, exhausted(r)),
        r matches Ok(x) ==> x@ == subst(expr@, variable@, replacement@),
        r matches Err(e) ==> e.code == ErrorCode::ResourceLimit,
    decreases expr,
{
    budget.tick()?;
    match expr {
        Expr::Ident(name) => {
            if str_eq(name.as_str(), variable) {
                Ok(clone_expr(replacement))
            } else {
                Ok(Expr::Ident(name.clone()))
            }
        },
        Expr::Unary { op, expr: inner } => {
            let inner = substitute_inner(inner, variable, replacement, budget)?;
            Ok(Expr::Unary { op: *op, expr: Box::new(inner) })
        },
        Expr::Binary { op, left, right } => {
            let left = substitute_inner(left, variable, replacement, budget)?;
            let right = substitute_inner(right, variable, replacement, budget)?;
            Ok(Expr::Binary { op: *op, left: Box::new(left), right: Box::new(right) })
        },
        Expr::Compare { operands, ops } => {
            let operands = substitute_exprs(operands, variable, replacement, budget)?;
            Ok(Expr::Compare { operands, ops: clone_ops(ops) })
        },
        Expr::Call { name, args } => {
            let args = substitute_args(args, variable, replacement, budget)?;
            Ok(Expr::Call { name: name.clone(), args })
        },
        Expr::Array(items) => Ok(Expr::Array(substitute_exprs(items, variable, replacement, budget)?)),
        Expr::Record(fields) => Ok(Expr::Record(substitute_fields(fields, variable, replacement, budget)?)),
        _ => Ok(clone_expr(expr)),
    }
}

fn substitute_exprs(xs: &Vec<Expr>, variable: &str, replacement: &Expr, budget: &mut Budget) -> (r: Result<Vec<Expr>, EngineError>)
    ensures
        budget_ok(*old(budget), *final(budget), sizes(exprs_view(xs@)) as int, exhausted(r)),
        r matches Ok(out) ==> exprs_view(out@) == subst_seq(exprs_view(xs@), variable@, replacement@),
        
        r matches Err(e) ==> e.code == ErrorCode::ResourceLimit,
    decreases xs,
{
    let ghost views = exprs_view(xs@);
    proof {
        lemma_exprs_view(xs@);
        lemma_subst_seq(views, variable@, replacement@);
    }
    let mut out: Vec<Expr> = Vec::new();
    let mut i: usize = 0;
    while i < xs.len()
        invariant
            i <= xs.len(),
            out.len() == i,
            views == exprs_view(xs@),
            views.len() == xs.len(),
            forall|j: int| 0 <= j < xs.len() ==> #[trigger] views[j] == xs@[j]@,
            forall|j: int| 0 <= j < i ==> #[trigger] out@[j]@ == subst(views[j], variable@, replacement@),
            
            budget.limit() == old(budget).limit(),
            old(budget).spent() <= budget.spent(),
            budget.spent() <= old(budget).spent() + sizes(views.subrange(0, i as int)),
        decreases xs.len() - i,
    {
        proof {
            lemma_sizes_step_sub(views, i as int, variable@, replacement@);
            lemma_sizes_prefix_sub(views, i as int + 1, variable@, replacement@);
        }
        let value = substitute_inner(&xs[i], variable, replacement, budget)?;
        out.push(value);
        i = i + 1;
    }
    proof {
        assert(views.subrange(0, xs.len() as int) =~= views);
        lemma_exprs_view(out@);
        assert(exprs_view(out@) =~= subst_seq(views, variable@, replacement@));
        
    }
    Ok(out)
}

fn substitute_fields(xs: &Vec<(String, Expr)>, variable: &str, replacement: &Expr, budget: &mut Budget) -> (r: Result<Vec<(String, Expr)>, EngineError>)
    ensures
        budget_ok(*old(budget), *final(budget), sizes(field_values_view(xs@)) as int, exhausted(r)),
        r matches Ok(out) ==> field_values_view(out@) == subst_seq(field_values_view(xs@), variable@, replacement@),
        r matches Ok(out) ==> out@.map_values(|f: (String, Expr)| f.0@) == xs@.map_values(|f: (String, Expr)| f.0@),
        r matches Err(e) ==> e.code == ErrorCode::ResourceLimit,
    decreases xs,
{
    let ghost views = field_values_view(xs@);
    proof {
        lemma_field_values_view(xs@);
        lemma_subst_seq(views, variable@, replacement@);
    }
    let mut out: Vec<(String, Expr)> = Vec::new();
    let mut i: usize = 0;
    while i < xs.len()
        invariant
            i <= xs.len(),
            out.len() == i,
            views == field_values_view(xs@),
            views.len() == xs.len(),
            forall|j: int| 0 <= j < xs.len() ==> #[trigger] views[j] == xs@[j].1@,
            forall|j: int| 0 <= j < i ==> #[trigger] out@[j].1@ == subst(views[j], variable@, replacement@),
            forall|j: int| 0 <= j < i ==> #[trigger] out@[j].0@ == xs@[j].0@,
            budget.limit() == old(budget).limit(),
            old(budget).spent() <= budget.spent(),
            budget.spent() <= old(budget).spent() + sizes(views.subrange(0, i as int)),
        decreases xs.len() - i,
    {
        proof {
            lemma_sizes_step_sub(views, i as int, variable@, replacement@);
            lemma_sizes_prefix_sub(views, i as int + 1, variable@, replacement@);
        }
        let value = substitute_inner(&xs[i].1, variable, replacement, budget)?;
        let ghost before = out@;
        out.push((xs[i].0.clone(), value));
        assert forall|j: int| 0 <= j <= i implies #[trigger] out@[j].1@ == subst(
            views[j],
            variable@,
            replacement@,
        ) by {
            if j < i {
                assert(out@[j] == before[j]);
            }
        }
        i = i + 1;
    }
    proof {
        assert(views.subrange(0, xs.len() as int) =~= views);
        lemma_field_values_view(out@);
        assert(field_values_view(out@) =~= subst_seq(views, variable@, replacement@));
        assert(out@.map_values(|f: (String, Expr)| f.0@) =~= xs@.map_values(|f: (String, Expr)| f.0@));
    }
    Ok(out)
}

fn substitute_args(xs: &Vec<CallArg>, variable: &str, replacement: &Expr, budget: &mut Budget) -> (r: Result<Vec<CallArg>, EngineError>)
    ensures
        budget_ok(*old(budget), *final(budget), sizes(arg_values_view(xs@)) as int, exhausted(r)),
        r matches Ok(out) ==> arg_values_view(out@) == subst_seq(arg_values_view(xs@), variable@, replacement@),
        r matches Ok(out) ==> out@.map_values(|a: CallArg| name_view(a.name)) == xs@.map_values(|a: CallArg| name_view(a.name)),
        r matches Err(e) ==> e.code == ErrorCode::ResourceLimit,
    decreases xs,
{
    let ghost views = arg_values_view(xs@);
    proof {
        lemma_arg_values_view(xs@);
        lemma_subst_seq(views, variable@, replacement@);
    }
    let mut out: Vec<CallArg> = Vec::new();
    let mut i: usize = 0;
    while i < xs.len()
        invariant
            i <= xs.len(),
            out.len() == i,
            views == arg_values_view(xs@),
            views.len() == xs.len(),
            forall|j: int| 0 <= j < xs.len() ==> #[trigger] views[j] == xs@[j].value@,
            forall|j: int| 0 <= j < i ==> #[trigger] out@[j].value@ == subst(views[j], variable@, replacement@),
            forall|j: int| 0 <= j < i ==> #[trigger] name_view(out@[j].name) == name_view(xs@[j].name),
            budget.limit() == old(budget).limit(),
            old(budget).spent() <= budget.spent(),
            budget.spent() <= old(budget).spent() + sizes(views.subrange(0, i as int)),
        decreases xs.len() - i,
    {
        proof {
            lemma_sizes_step_sub(views, i as int, variable@, replacement@);
            lemma_sizes_prefix_sub(views, i as int + 1, variable@, replacement@);
        }
        let value = substitute_inner(&xs[i].value, variable, replacement, budget)?;
        out.push(CallArg { name: clone_name(&xs[i].name), value });
        i = i + 1;
    }
    proof {
        assert(views.subrange(0, xs.len() as int) =~= views);
        lemma_arg_values_view(out@);
        assert(arg_values_view(out@) =~= subst_seq(views, variable@, replacement@));
        assert(out@.map_values(|a: CallArg| name_view(a.name)) =~= xs@.map_values(|a: CallArg| name_view(a.name)));
    }
    Ok(out)
}
// ---------------------------------------------------------------------------
// Free variables
// ---------------------------------------------------------------------------

/// The names an expression mentions, excluding the constants `pi` and `e`.
pub open spec fn free_vars(e: ExprV) -> Set<Seq<char>>
    decreases e,
{
    match e {
        ExprV::Ident(name) => if is_constant_name(name) {
            Set::empty()
        } else {
            set![name]
        },
        ExprV::Unary { arg, .. } => free_vars(*arg),
        ExprV::Binary { left, right, .. } => free_vars(*left) + free_vars(*right),
        ExprV::Compare { operands, .. } => free_vars_seq(operands),
        ExprV::Call { args, .. } => free_vars_seq(args),
        ExprV::Array(items) => free_vars_seq(items),
        ExprV::Record { values, .. } => free_vars_seq(values),
        _ => Set::empty(),
    }
}

pub open spec fn free_vars_seq(s: Seq<ExprV>) -> Set<Seq<char>>
    decreases s,
{
    if s.len() == 0 {
        Set::empty()
    } else {
        free_vars_seq(s.drop_last()) + free_vars(s.last())
    }
}

proof fn lemma_free_vars_step(s: Seq<ExprV>, i: int)
    requires
        0 <= i < s.len(),
    ensures
        free_vars_seq(s.subrange(0, i + 1)) == free_vars_seq(s.subrange(0, i)) + free_vars(s[i]),
{
    assert(s.subrange(0, i + 1).drop_last() =~= s.subrange(0, i));
}

pub open spec fn names_view(v: Seq<String>) -> Seq<Seq<char>> {
    v.map_values(|s: String| s@)
}

/// Strictly increasing in lexicographic order, hence without repetition.
pub open spec fn sorted_names(s: Seq<Seq<char>>) -> bool {
    &&& forall|i: int| 0 <= i < s.len() - 1 ==> #[trigger] lex_lt(s[i], s[i + 1])
    &&& s.no_duplicates()
}

/// Insert a name into a sorted list of distinct names, keeping it sorted.
fn insert_sorted(names: &mut Vec<String>, name: &String)
    requires
        sorted_names(names_view(old(names)@)),
    ensures
        sorted_names(names_view(final(names)@)),
        names_view(final(names)@).to_set() == names_view(old(names)@).to_set().insert(name@),
{
    let ghost v = names_view(names@);
    let mut i: usize = 0;
    while i < names.len()
        invariant
            v == names_view(names@),
            names@ == old(names)@,
            sorted_names(v),
            i <= names.len(),
            forall|j: int| 0 <= j < i ==> v[j] != name@,
        decreases names.len() - i,
    {
        if names[i] == *name {
            proof {
                assert(v[i as int] == name@);
                assert(v.contains(name@));
                assert(v.to_set().insert(name@) =~= v.to_set());
                assert(names_view(names@) == v);
                assert(sorted_names(v));
            }
            return;
        }
        i = i + 1;
    }
    let mut k: usize = 0;
    while k < names.len() && str_lt(names[k].as_str(), name.as_str())
        invariant
            v == names_view(names@),
            names@ == old(names)@,
            sorted_names(v),
            k <= names.len(),
            forall|j: int| 0 <= j < names.len() ==> v[j] != name@,
            forall|j: int| 0 <= j < k ==> lex_lt(#[trigger] v[j], name@),
        decreases names.len() - k,
    {
        k = k + 1;
    }
    proof {
        if k < names.len() {
            lemma_lex_total(v[k as int], name@);
            assert(!lex_lt(v[k as int], name@));
            assert(v[k as int] != name@);
            assert(lex_lt(name@, v[k as int]));
        }
    }
    names.insert(k, name.clone());
    proof {
        let w = names_view(names@);
        assert(w =~= v.insert(k as int, name@));
        assert forall|j: int| 0 <= j < w.len() - 1 implies #[trigger] lex_lt(w[j], w[j + 1]) by {
            if j + 1 < k {
                assert(w[j] == v[j] && w[j + 1] == v[j + 1]);
                assert(lex_lt(v[j], v[j + 1]));
            } else if j + 1 == k {
                assert(w[j] == v[j]);
                assert(w[j + 1] == name@);
                assert(lex_lt(v[j], name@));
            } else if j == k {
                assert(w[j] == name@);
                assert(w[j + 1] == v[j]);
            } else {
                assert(w[j] == v[j - 1] && w[j + 1] == v[j]);
                assert(lex_lt(v[j - 1], v[(j - 1) + 1]));
            }
        }
        assert forall|a: int, b: int| 0 <= a < w.len() && 0 <= b < w.len() && a != b implies w[a]
            != w[b] by {
            if a != k && b != k {
                let ia = if a < k { a } else { a - 1 };
                let ib = if b < k { b } else { b - 1 };
                assert(w[a] == v[ia] && w[b] == v[ib]);
            } else if a == k {
                let ib = if b < k { b } else { b - 1 };
                assert(w[b] == v[ib]);
            } else {
                let ia = if a < k { a } else { a - 1 };
                assert(w[a] == v[ia]);
            }
        }
        assert forall|x: Seq<char>| w.contains(x) <==> (v.contains(x) || x == name@) by {
            if w.contains(x) {
                let a = choose|a: int| 0 <= a < w.len() && w[a] == x;
                if a < k {
                    assert(v[a] == x);
                } else if a > k {
                    assert(v[a - 1] == x);
                }
            }
            if v.contains(x) {
                let a = choose|a: int| 0 <= a < v.len() && v[a] == x;
                if a < k {
                    assert(w[a] == x);
                } else {
                    assert(w[a + 1] == x);
                }
            }
            if x == name@ {
                assert(w[k as int] == x);
            }
        }
        assert(w.to_set() =~= v.to_set().insert(name@));
    }
}

/// The sorted, distinct free variable names of an expression, excluding
/// `pi` and `e`.
pub fn collect_free_variables(expr: &Expr, limits: &Limits) -> (r: Result<Vec<String>, EngineError>)
    ensures
        r matches Ok(names) ==> sorted_names(names_view(names@)) && names_view(names@).to_set()
            == free_vars(expr@),
        r matches Err(e) ==> e.code == ErrorCode::ResourceLimit,
        size(expr@) <= limits.max_operations ==> r is Ok,
{
    let mut budget = Budget::new(limits.max_operations);
    let mut names: Vec<String> = Vec::new();
    proof {
        assert(names_view(names@) =~= Seq::<Seq<char>>::empty());
        assert(names_view(names@).to_set() =~= Set::<Seq<char>>::empty());
    }
    collect_free_inner(expr, &mut budget, &mut names)?;
    assert(names_view(names@).to_set() =~= free_vars(expr@));
    Ok(names)
}

fn collect_free_inner(expr: &Expr, budget: &mut Budget, names: &mut Vec<String>) -> (r: Result<
    (),
    EngineError,
>)
    requires
        sorted_names(names_view(old(names)@)),
    ensures
        budget_ok(*old(budget), *final(budget), size(expr@) as int, exhausted(r)),
        sorted_names(names_view(final(names)@)),
        r is Ok ==> names_view(final(names)@).to_set() == names_view(old(names)@).to_set()
            + free_vars(expr@),
        r matches Err(e) ==> e.code == ErrorCode::ResourceLimit,
    decreases expr,
{
    budget.tick()?;
    match expr {
        Expr::Ident(name) => {
            if !is_constant(name.as_str()) {
                insert_sorted(names, name);
                assert(names_view(old(names)@).to_set().insert(name@) =~= names_view(
                    old(names)@,
                ).to_set() + free_vars(expr@));
            } else {
                assert(names_view(old(names)@).to_set() =~= names_view(old(names)@).to_set()
                    + free_vars(expr@));
            }
            Ok(())
        },
        Expr::Unary { expr: inner, .. } => collect_free_inner(inner, budget, names),
        Expr::Binary { left, right, .. } => {
            collect_free_inner(left, budget, names)?;
            collect_free_inner(right, budget, names)?;
            assert(names_view(names@).to_set() =~= names_view(old(names)@).to_set() + free_vars(
                expr@,
            ));
            Ok(())
        },
        Expr::Compare { operands, .. } => collect_free_exprs(operands, budget, names),
        Expr::Call { args, .. } => collect_free_args(args, budget, names),
        Expr::Array(items) => collect_free_exprs(items, budget, names),
        Expr::Record(fields) => collect_free_fields(fields, budget, names),
        _ => {
            assert(names_view(old(names)@).to_set() =~= names_view(old(names)@).to_set()
                + free_vars(expr@));
            Ok(())
        },
    }
}

fn collect_free_exprs(xs: &Vec<Expr>, budget: &mut Budget, names: &mut Vec<String>) -> (r: Result<(), EngineError>)
    requires
        sorted_names(names_view(old(names)@)),
    ensures
        budget_ok(*old(budget), *final(budget), sizes(exprs_view(xs@)) as int, exhausted(r)),
        sorted_names(names_view(final(names)@)),
        r is Ok ==> names_view(final(names)@).to_set() == names_view(old(names)@).to_set()
            + free_vars_seq(exprs_view(xs@)),
        r matches Err(e) ==> e.code == ErrorCode::ResourceLimit,
    decreases xs,
{
    let ghost views = exprs_view(xs@);
    proof {
        lemma_exprs_view(xs@);
    }
    let mut i: usize = 0;
    while i < xs.len()
        invariant
            i <= xs.len(),
            views == exprs_view(xs@),
            views.len() == xs.len(),
            forall|j: int| 0 <= j < xs.len() ==> #[trigger] views[j] == xs@[j]@,
            sorted_names(names_view(names@)),
            names_view(names@).to_set() == names_view(old(names)@).to_set() + free_vars_seq(
                views.subrange(0, i as int),
            ),
            budget.limit() == old(budget).limit(),
            old(budget).spent() <= budget.spent(),
            budget.spent() <= old(budget).spent() + sizes(views.subrange(0, i as int)),
        decreases xs.len() - i,
    {
        proof {
            lemma_sizes_step(views, i as int);
            lemma_sizes_prefix(views, i as int + 1);
            lemma_free_vars_step(views, i as int);
        }
        let ghost before = names_view(names@).to_set();
        collect_free_inner(&xs[i], budget, names)?;
        assert(names_view(names@).to_set() =~= names_view(old(names)@).to_set() + free_vars_seq(
            views.subrange(0, i as int + 1),
        ));
        i = i + 1;
    }
    proof {
        assert(views.subrange(0, xs.len() as int) =~= views);
    }
    Ok(())
}

fn collect_free_fields(xs: &Vec<(String, Expr)>, budget: &mut Budget, names: &mut Vec<String>) -> (r: Result<(), EngineError>)
    requires
        sorted_names(names_view(old(names)@)),
    ensures
        budget_ok(*old(budget), *final(budget), sizes(field_values_view(xs@)) as int, exhausted(r)),
        sorted_names(names_view(final(names)@)),
        r is Ok ==> names_view(final(names)@).to_set() == names_view(old(names)@).to_set()
            + free_vars_seq(field_values_view(xs@)),
        r matches Err(e) ==> e.code == ErrorCode::ResourceLimit,
    decreases xs,
{
    let ghost views = field_values_view(xs@);
    proof {
        lemma_field_values_view(xs@);
    }
    let mut i: usize = 0;
    while i < xs.len()
        invariant
            i <= xs.len(),
            views == field_values_view(xs@),
            views.len() == xs.len(),
            forall|j: int| 0 <= j < xs.len() ==> #[trigger] views[j] == xs@[j].1@,
            sorted_names(names_view(names@)),
            names_view(names@).to_set() == names_view(old(names)@).to_set() + free_vars_seq(
                views.subrange(0, i as int),
            ),
            budget.limit() == old(budget).limit(),
            old(budget).spent() <= budget.spent(),
            budget.spent() <= old(budget).spent() + sizes(views.subrange(0, i as int)),
        decreases xs.len() - i,
    {
        proof {
            lemma_sizes_step(views, i as int);
            lemma_sizes_prefix(views, i as int + 1);
            lemma_free_vars_step(views, i as int);
        }
        let ghost before = names_view(names@).to_set();
        collect_free_inner(&xs[i].1, budget, names)?;
        assert(names_view(names@).to_set() =~= names_view(old(names)@).to_set() + free_vars_seq(
            views.subrange(0, i as int + 1),
        ));
        i = i + 1;
    }
    proof {
        assert(views.subrange(0, xs.len() as int) =~= views);
    }
    Ok(())
}

fn collect_free_args(xs: &Vec<CallArg>, budget: &mut Budget, names: &mut Vec<String>) -> (r: Result<(), EngineError>)
    requires
        sorted_names(names_view(old(names)@)),
    ensures
        budget_ok(*old(budget), *final(budget), sizes(arg_values_view(xs@)) as int, exhausted(r)),
        sorted_names(names_view(final(names)@)),
        r is Ok ==> names_view(final(names)@).to_set() == names_view(old(names)@).to_set()
            + free_vars_seq(arg_values_view(xs@)),
        r matches Err(e) ==> e.code == ErrorCode::ResourceLimit,
    decreases xs,
{
    let ghost views = arg_values_view(xs@);
    proof {
        lemma_arg_values_view(xs@);
    }
    let mut i: usize = 0;
    while i < xs.len()
        invariant
            i <= xs.len(),
            views == arg_values_view(xs@),
            views.len() == xs.len(),
            forall|j: int| 0 <= j < xs.len() ==> #[trigger] views[j] == xs@[j].value@,
            sorted_names(names_view(names@)),
            names_view(names@).to_set() == names_view(old(names)@).to_set() + free_vars_seq(
                views.subrange(0, i as int),
            ),
            budget.limit() == old(budget).limit(),
            old(budget).spent() <= budget.spent(),
            budget.spent() <= old(budget).spent() + sizes(views.subrange(0, i as int)),
        decreases xs.len() - i,
    {
        proof {
            lemma_sizes_step(views, i as int);
            lemma_sizes_prefix(views, i as int + 1);
            lemma_free_vars_step(views, i as int);
        }
        let ghost before = names_view(names@).to_set();
        collect_free_inner(&xs[i].value, budget, names)?;
        assert(names_view(names@).to_set() =~= names_view(old(names)@).to_set() + free_vars_seq(
            views.subrange(0, i as int + 1),
        ));
        i = i + 1;
    }
    proof {
        assert(views.subrange(0, xs.len() as int) =~= views);
    }
    Ok(())
}
/// Each element of a list is no larger than the whole list.
pub proof fn lemma_size_elem(s: Seq<ExprV>, i: int)
    requires
        0 <= i < s.len(),
    ensures
        size(s[i]) <= sizes(s),
    decreases s.len(),
{
    if i < s.len() - 1 {
        lemma_size_elem(s.drop_last(), i);
        assert(s.drop_last()[i] == s[i]);
    }
}

/// The size of a two-element list.
pub proof fn lemma_sizes_pair(s: Seq<ExprV>)
    requires
        s.len() == 2,
    ensures
        sizes(s) == size(s[0]) + size(s[1]),
{
    let d = s.drop_last();
    assert(d.drop_last().len() == 0);
    assert(sizes(d.drop_last()) == 0);
    assert(d.last() == s[0]);
    assert(s.last() == s[1]);
    assert(sizes(d) == size(s[0]));
}

/// The nodes built by the constructors of this module are well formed when
/// their parts are.
pub proof fn lemma_built_well_formed()
    ensures
        forall|q: Rat| #[trigger] well_formed(number_node(q)),
        forall|e: ExprV| well_formed(e) ==> #[trigger] well_formed(negated(e)),
        forall|op: BinaryOp, l: ExprV, r: ExprV|
            #[trigger] well_formed(binary_node(op, l, r)) <==> well_formed(l) && well_formed(r),
        forall|n: Seq<char>, u: ExprV| #[trigger] well_formed(call1_node(n, u)) <==> well_formed(u),
{
    assert forall|q: Rat| #[trigger] well_formed(number_node(q)) by {
        if q.num < 0 {
            assert(well_formed(ExprV::Number(rat_neg(q))));
        }
    }
    assert forall|n: Seq<char>, u: ExprV| #[trigger] well_formed(call1_node(n, u)) <==> well_formed(
        u,
    ) by {
        let s = seq![u];
        assert(s.drop_last() =~= Seq::<ExprV>::empty());
        assert(all_well_formed(s.drop_last()));
        assert(all_well_formed(s) == well_formed(u));
    }
    assert forall|e: ExprV| well_formed(e) implies #[trigger] well_formed(negated(e)) by {
        match e {
            ExprV::Number(q) => {
                if rat_neg(q).num < 0 {
                    assert(well_formed(ExprV::Number(rat_neg(rat_neg(q)))));
                }
            },
            _ => {},
        }
    }
}

/// Substitution keeps trees well formed.
pub proof fn lemma_subst_well_formed(e: ExprV, v: Seq<char>, r: ExprV)
    requires
        well_formed(e),
        well_formed(r),
    ensures
        well_formed(subst(e, v, r)),
    decreases e,
{
    match e {
        ExprV::Unary { arg, .. } => lemma_subst_well_formed(*arg, v, r),
        ExprV::Binary { left, right, .. } => {
            lemma_subst_well_formed(*left, v, r);
            lemma_subst_well_formed(*right, v, r);
        },
        ExprV::Compare { operands, .. } => {
            lemma_subst_seq_well_formed(operands, v, r);
            lemma_subst_seq(operands, v, r);
        },
        ExprV::Call { args, .. } => lemma_subst_seq_well_formed(args, v, r),
        ExprV::Array(items) => lemma_subst_seq_well_formed(items, v, r),
        ExprV::Record { values, .. } => lemma_subst_seq_well_formed(values, v, r),
        _ => {},
    }
}

pub proof fn lemma_subst_seq_well_formed(s: Seq<ExprV>, v: Seq<char>, r: ExprV)
    requires
        all_well_formed(s),
        well_formed(r),
    ensures
        all_well_formed(subst_seq(s, v, r)),
    decreases s,
{
    if s.len() > 0 {
        lemma_subst_seq_well_formed(s.drop_last(), v, r);
        lemma_subst_well_formed(s.last(), v, r);
        assert(subst_seq(s, v, r).drop_last() =~= subst_seq(s.drop_last(), v, r));
    }
}

/// Substituting for a variable that does not occur leaves the expression as
/// it was.
pub proof fn lemma_subst_absent(e: ExprV, v: Seq<char>, r: ExprV)
    requires
        !contains_var(e, v),
    ensures
        subst(e, v, r) == e,
    decreases e,
{
    match e {
        ExprV::Unary { arg, .. } => lemma_subst_absent(*arg, v, r),
        ExprV::Binary { left, right, .. } => {
            lemma_subst_absent(*left, v, r);
            lemma_subst_absent(*right, v, r);
        },
        ExprV::Compare { operands, .. } => lemma_subst_seq_absent(operands, v, r),
        ExprV::Call { args, .. } => lemma_subst_seq_absent(args, v, r),
        ExprV::Array(items) => lemma_subst_seq_absent(items, v, r),
        ExprV::Record { values, .. } => lemma_subst_seq_absent(values, v, r),
        _ => {},
    }
}

pub proof fn lemma_subst_seq_absent(s: Seq<ExprV>, v: Seq<char>, r: ExprV)
    requires
        !any_contains(s, v),
    ensures
        subst_seq(s, v, r) == s,
    decreases s,
{
    if s.len() > 0 {
        lemma_subst_seq_absent(s.drop_last(), v, r);
        lemma_subst_absent(s.last(), v, r);
        assert(subst_seq(s, v, r) =~= s);
    }
}

/// The free variables after substituting `r` for a variable `v` (not one of
/// the constants): those of `e` without `v`, together with those of `r` when
/// `v` occurred.
pub open spec fn free_vars_after(fv: Set<Seq<char>>, v: Seq<char>, r: ExprV) -> Set<Seq<char>> {
    if fv.contains(v) {
        fv.remove(v) + free_vars(r)
    } else {
        fv
    }
}

/// Substitution replaces exactly the named variable: the free variables of
/// the result are those of the expression without `v`, plus those of the
/// replacement where `v` occurred.
pub proof fn lemma_subst_free_vars(e: ExprV, v: Seq<char>, r: ExprV)
    requires
        !is_constant_name(v),
    ensures
        free_vars(subst(e, v, r)) == free_vars_after(free_vars(e), v, r),
    decreases e,
{
    match e {
        ExprV::Ident(name) => {
            if name == v {
                assert(free_vars(e) =~= set![v]);
                assert(set![v].remove(v) + free_vars(r) =~= free_vars(r));
            }
        },
        ExprV::Unary { arg, .. } => lemma_subst_free_vars(*arg, v, r),
        ExprV::Binary { left, right, .. } => {
            lemma_subst_free_vars(*left, v, r);
            lemma_subst_free_vars(*right, v, r);
            assert(free_vars(subst(e, v, r)) =~= free_vars_after(free_vars(e), v, r));
        },
        ExprV::Compare { operands, .. } => lemma_subst_seq_free_vars(operands, v, r),
        ExprV::Call { args, .. } => lemma_subst_seq_free_vars(args, v, r),
        ExprV::Array(items) => lemma_subst_seq_free_vars(items, v, r),
        ExprV::Record { values, .. } => lemma_subst_seq_free_vars(values, v, r),
        _ => {},
    }
}

pub proof fn lemma_subst_seq_free_vars(s: Seq<ExprV>, v: Seq<char>, r: ExprV)
    requires
        !is_constant_name(v),
    ensures
        free_vars_seq(subst_seq(s, v, r)) == free_vars_after(free_vars_seq(s), v, r),
    decreases s,
{
    if s.len() > 0 {
        lemma_subst_seq_free_vars(s.drop_last(), v, r);
        lemma_subst_free_vars(s.last(), v, r);
        assert(subst_seq(s, v, r).drop_last() =~= subst_seq(s.drop_last(), v, r));
        assert(free_vars_seq(subst_seq(s, v, r)) =~= free_vars_after(free_vars_seq(s), v, r));
    } else {
        assert(subst_seq(s, v, r) =~= Seq::<ExprV>::empty());
    }
}

} // verus!
