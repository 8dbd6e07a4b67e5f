use bicmath::error::{Budget, ErrorCode, Limits, NumericMode};
use bicmath::evaluate::evaluate_exact;
use bicmath::simplify::simplify;
use bicmath::expr::{BinaryOp, CallArg, Expr, UnaryOp};
use bicmath::number::Number;
use bicmath::symbolic::{
    derivative_text, free_variables, print_text, simplify_text, substitute_text,
    taylor_expansion, TaylorOutcome,
};

fn x() -> Expr {
    ident("x")
}

fn ident(name: &str) -> Expr {
    Expr::Ident(name.to_string())
}

fn lit(v: i64) -> Expr {
    Expr::Number(Number::from_i64(v))
}

fn bin(op: BinaryOp, left: Expr, right: Expr) -> Expr {
    Expr::Binary { op, left: Box::new(left), right: Box::new(right) }
}

fn call(name: &str, arg: Expr) -> Expr {
    Expr::Call { name: name.to_string(), args: vec![CallArg { name: None, value: arg }] }
}

fn limits() -> Limits {
    Limits::conservative()
}

fn texts(numbers: &[Number]) -> Vec<String> {
    numbers.iter().map(|n| n.to_text()).collect()
}

#[test]
fn derivative_of_x_squared_is_two_x() {
    let expr = bin(BinaryOp::Pow, x(), lit(2));
    assert_eq!(derivative_text(&expr, "x", None, &limits()).unwrap(), "2 * x");
}

#[test]
fn derivative_of_sin_of_x_squared() {
    let expr = call("sin", bin(BinaryOp::Pow, x(), lit(2)));
    assert_eq!(derivative_text(&expr, "x", None, &limits()).unwrap(), "2 * x * cos(x^2)");
}

#[test]
fn derivative_of_natural_log() {
    let expr = call("ln", x());
    assert_eq!(derivative_text(&expr, "x", None, &limits()).unwrap(), "1 / x");
}

#[test]
fn second_derivative_of_x_cubed_is_six_x() {
    let expr = bin(BinaryOp::Pow, x(), lit(3));
    assert_eq!(derivative_text(&expr, "x", Some(2), &limits()).unwrap(), "6 * x");
}

#[test]
fn simplify_eliminates_identities() {
    // 0*x + x*1 + 2 - 2
    let expr = bin(
        BinaryOp::Sub,
        bin(
            BinaryOp::Add,
            bin(BinaryOp::Add, bin(BinaryOp::Mul, lit(0), x()), bin(BinaryOp::Mul, x(), lit(1))),
            lit(2),
        ),
        lit(2),
    );
    assert_eq!(simplify_text(&expr, &limits()).unwrap(), "x");
}

#[test]
fn simplify_folds_exact_constants() {
    // 2^10 / 4
    let expr = bin(BinaryOp::Div, bin(BinaryOp::Pow, lit(2), lit(10)), lit(4));
    assert_eq!(simplify_text(&expr, &limits()).unwrap(), "256");
}

#[test]
fn taylor_exp_at_zero_is_exact() {
    let expr = call("exp", x());
    let outcome =
        taylor_expansion(&expr, "x", &Number::zero(), 4, NumericMode::Auto, &limits()).unwrap();
    match outcome {
        TaylorOutcome::Exact { coefficients, polynomial } => {
            assert_eq!(polynomial, "1 + x + 1/2 * x^2 + 1/6 * x^3 + 1/24 * x^4");
            assert_eq!(texts(&coefficients), vec!["1", "1", "1/2", "1/6", "1/24"]);
        },
        TaylorOutcome::Approximate { .. } => panic!("expected an exact expansion"),
    }
}

#[test]
fn taylor_sin_at_zero_is_exact() {
    let expr = call("sin", x());
    let outcome =
        taylor_expansion(&expr, "x", &Number::zero(), 5, NumericMode::Auto, &limits()).unwrap();
    match outcome {
        TaylorOutcome::Exact { coefficients, polynomial } => {
            assert_eq!(texts(&coefficients), vec!["0", "1", "0", "-1/6", "0", "1/120"]);
            assert_eq!(polynomial, "x - 1/6 * x^3 + 1/120 * x^5");
        },
        TaylorOutcome::Approximate { .. } => panic!("expected an exact expansion"),
    }
}

#[test]
fn taylor_without_exact_values_is_approximate() {
    let expr = call("sin", x());
    let outcome =
        taylor_expansion(&expr, "x", &Number::one(), 3, NumericMode::Auto, &limits()).unwrap();
    match outcome {
        TaylorOutcome::Approximate { derivatives } => assert_eq!(derivatives.len(), 4),
        TaylorOutcome::Exact { .. } => panic!("expected an approximate expansion"),
    }
}

#[test]
fn taylor_rejects_unknown_variables() {
    let expr = bin(BinaryOp::Add, x(), ident("z"));
    let error = taylor_expansion(&expr, "x", &Number::zero(), 1, NumericMode::Auto, &limits())
        .err()
        .unwrap();
    assert_eq!(error.code, ErrorCode::NotFound);
}

#[test]
fn approximate_taylor_is_rejected_in_exact_mode() {
    let expr = call("sin", x());
    let error = taylor_expansion(&expr, "x", &Number::one(), 3, NumericMode::Exact, &limits())
        .err()
        .unwrap();
    assert_eq!(error.code, ErrorCode::UnsupportedNumericMode);
}

#[test]
fn substitute_replaces_only_the_named_variable() {
    let expr = bin(BinaryOp::Add, bin(BinaryOp::Pow, x(), lit(2)), ident("y"));
    let replacement = bin(BinaryOp::Add, ident("a"), lit(1));
    assert_eq!(substitute_text(&expr, "x", &replacement, &limits()).unwrap(), "(a + 1)^2 + y");
}

#[test]
fn free_variables_excludes_constants() {
    let expr = bin(
        BinaryOp::Add,
        bin(BinaryOp::Add, x(), bin(BinaryOp::Mul, ident("y"), lit(2))),
        ident("pi"),
    );
    assert_eq!(free_variables(&expr, &limits()).unwrap(), vec!["x".to_string(), "y".to_string()]);
}

#[test]
fn power_binds_tighter_than_unary_minus() {
    let expr = Expr::Unary { op: UnaryOp::Neg, expr: Box::new(bin(BinaryOp::Pow, lit(2), lit(2))) };
    assert_eq!(print_text(&expr, &limits()).unwrap(), "-2^2");
}

#[test]
fn minimal_parentheses_are_kept() {
    let expr = bin(BinaryOp::Mul, bin(BinaryOp::Add, x(), lit(1)), lit(2));
    assert_eq!(print_text(&expr, &limits()).unwrap(), "(x + 1) * 2");
}

#[test]
fn unknown_function_is_rejected() {
    let expr = call("nope", x());
    let error = derivative_text(&expr, "x", None, &limits()).err().unwrap();
    assert_eq!(error.code, ErrorCode::UnknownFunction);
}

#[test]
fn exact_constant_folding_of_a_product() {
    // (2 + 3) * 4
    let expr = bin(BinaryOp::Mul, bin(BinaryOp::Add, lit(2), lit(3)), lit(4));
    assert_eq!(simplify_text(&expr, &limits()).unwrap(), "20");
}

#[test]
fn substituting_an_absent_variable_changes_nothing() {
    let expr = bin(BinaryOp::Add, bin(BinaryOp::Pow, x(), lit(2)), ident("y"));
    let replacement = bin(BinaryOp::Add, ident("a"), lit(1));
    assert_eq!(substitute_text(&expr, "z", &replacement, &limits()).unwrap(), "x^2 + y");
}

#[test]
fn substitution_changes_the_free_variables() {
    let expr = bin(BinaryOp::Add, bin(BinaryOp::Pow, x(), lit(2)), ident("y"));
    let replacement = bin(BinaryOp::Add, ident("a"), lit(1));
    let substituted = bicmath::ast::substitute(&expr, "x", &replacement, &limits()).unwrap();
    assert_eq!(
        free_variables(&substituted, &limits()).unwrap(),
        vec!["a".to_string(), "y".to_string()]
    );
}

#[test]
fn invalid_variable_names_are_rejected() {
    let expr = bin(BinaryOp::Pow, x(), lit(2));
    let error = derivative_text(&expr, "2x", None, &limits()).err().unwrap();
    assert_eq!(error.code, ErrorCode::MalformedInput);
}

#[test]
fn derivative_order_is_bounded() {
    let expr = bin(BinaryOp::Pow, x(), lit(2));
    let error = derivative_text(&expr, "x", Some(101), &limits()).err().unwrap();
    assert_eq!(error.code, ErrorCode::ResourceLimit);
    let error = derivative_text(&expr, "x", Some(-1), &limits()).err().unwrap();
    assert_eq!(error.code, ErrorCode::DomainViolation);
    assert_eq!(derivative_text(&expr, "x", Some(0), &limits()).unwrap(), "x^2");
}

#[test]
fn logical_expressions_are_not_differentiable() {
    let expr = bin(BinaryOp::And, x(), ident("y"));
    let error = derivative_text(&expr, "x", None, &limits()).err().unwrap();
    assert_eq!(error.code, ErrorCode::MalformedInput);
}

#[test]
fn rational_and_negative_literals_print_with_parentheses() {
    // (1/2)^2 and (-3)^2 keep their parentheses; 2 * -3 needs none on the left.
    let half = Expr::Number(Number::ratio(1, 2).unwrap());
    let expr = bin(BinaryOp::Pow, half, lit(2));
    assert_eq!(print_text(&expr, &limits()).unwrap(), "(1/2)^2");
    let negative = Expr::Number(Number::from_i64(-3));
    let expr = bin(BinaryOp::Pow, negative, lit(2));
    assert_eq!(print_text(&expr, &limits()).unwrap(), "(-3)^2");
}

#[test]
fn text_and_records_are_quoted() {
    let expr = Expr::Record(vec![
        ("a".to_string(), lit(1)),
        ("b c".to_string(), Expr::Text("say \"hi\"\n".to_string())),
    ]);
    assert_eq!(print_text(&expr, &limits()).unwrap(), "{\"a\": 1, \"b c\": \"say \\\"hi\\\"\\n\"}");
}

#[test]
fn remainders_of_literals_fold() {
    let expr = bin(BinaryOp::Rem, lit(7), lit(3));
    assert_eq!(simplify_text(&expr, &limits()).unwrap(), "1");
    let expr = bin(BinaryOp::Rem, lit(7), lit(0));
    assert_eq!(simplify_text(&expr, &limits()).unwrap(), "7 % 0");
}

#[test]
fn opposite_terms_cancel() {
    // x - x + y
    let expr = bin(BinaryOp::Add, bin(BinaryOp::Sub, x(), x()), ident("y"));
    assert_eq!(simplify_text(&expr, &limits()).unwrap(), "y");
}

#[test]
fn division_identities() {
    let expr = bin(BinaryOp::Div, x(), lit(1));
    assert_eq!(simplify_text(&expr, &limits()).unwrap(), "x");
    let expr = bin(BinaryOp::Div, lit(3), lit(3));
    assert_eq!(simplify_text(&expr, &limits()).unwrap(), "1");
    let expr = bin(BinaryOp::Div, lit(3), lit(6));
    assert_eq!(simplify_text(&expr, &limits()).unwrap(), "1/2");
}

#[test]
fn taylor_at_a_nonzero_point_is_exact_for_polynomials() {
    // x^2 around 1: 1 + 2 * (x - 1) + (x - 1)^2
    let expr = bin(BinaryOp::Pow, x(), lit(2));
    let outcome =
        taylor_expansion(&expr, "x", &Number::one(), 2, NumericMode::Exact, &limits()).unwrap();
    match outcome {
        TaylorOutcome::Exact { coefficients, polynomial } => {
            assert_eq!(texts(&coefficients), vec!["1", "2", "1"]);
            assert_eq!(polynomial, "1 + 2 * (x - 1) + (x - 1)^2");
        },
        TaylorOutcome::Approximate { .. } => panic!("expected an exact expansion"),
    }
}

fn exact_at(expr: &Expr, at: &Number) -> String {
    let mut budget = Budget::new(10_000);
    evaluate_exact(expr, "x", at, &mut budget).unwrap().to_text()
}

#[test]
fn simplification_keeps_exact_values() {
    // (2*x + 3 - x) * (x / 1) + 2^3 - (-(x^1)) + abs(-4) * 0
    let sum = bin(BinaryOp::Sub, bin(BinaryOp::Add, bin(BinaryOp::Mul, lit(2), x()), lit(3)), x());
    let product = bin(BinaryOp::Mul, sum, bin(BinaryOp::Div, x(), lit(1)));
    let neg = Expr::Unary { op: UnaryOp::Neg, expr: Box::new(bin(BinaryOp::Pow, x(), lit(1))) };
    let expr = bin(
        BinaryOp::Add,
        bin(BinaryOp::Sub, bin(BinaryOp::Add, product, bin(BinaryOp::Pow, lit(2), lit(3))), neg),
        bin(BinaryOp::Mul, call("abs", lit(-4)), lit(0)),
    );
    let simplified = simplify(&expr, &limits()).unwrap();
    for (n, d) in [(5i64, 2u64), (-3, 1), (0, 1), (7, 9)] {
        let at = Number::ratio(n, d).unwrap();
        assert_eq!(exact_at(&simplified, &at), exact_at(&expr, &at));
    }
    // (x + 3) * x + 8 + x at 5/2 is 55/4 + 8 + 5/2 = 97/4
    assert_eq!(exact_at(&simplified, &Number::ratio(5, 2).unwrap()), "97/4");
}

#[test]
fn simplify_removes_each_documented_identity() {
    let neg = |e: Expr| Expr::Unary { op: UnaryOp::Neg, expr: Box::new(e) };
    let y = || bin(BinaryOp::Add, x(), ident("y"));
    let cases: Vec<(Expr, &str)> = vec![
        (bin(BinaryOp::Add, x(), lit(0)), "x"),
        (bin(BinaryOp::Mul, x(), lit(1)), "x"),
        (bin(BinaryOp::Mul, y(), lit(0)), "0"),
        (bin(BinaryOp::Mul, lit(0), y()), "0"),
        (bin(BinaryOp::Pow, y(), lit(1)), "x + y"),
        (bin(BinaryOp::Pow, y(), lit(0)), "1"),
        (bin(BinaryOp::Div, y(), lit(1)), "x + y"),
        (neg(neg(y())), "x + y"),
        (bin(BinaryOp::Sub, x(), x()), "0"),
        (bin(BinaryOp::Div, lit(3), lit(3)), "1"),
    ];
    for (expr, expected) in cases {
        assert_eq!(simplify_text(&expr, &limits()).unwrap(), expected);
    }
}

#[test]
fn negated_inner_product_keeps_its_sign() {
    // -(x*y)*z
    let xy = bin(BinaryOp::Mul, x(), ident("y"));
    let neg = Expr::Unary { op: UnaryOp::Neg, expr: Box::new(xy) };
    let expr = bin(BinaryOp::Mul, neg, ident("z"));
    assert_eq!(simplify_text(&expr, &limits()).unwrap(), "-x * y * z");
}
