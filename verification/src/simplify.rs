//! Exact constant folding and identity elimination for the restricted grammar.
//!
//! Simplification is deliberately conservative: only exact numeric operations
//! are folded, and any operation without an exact value is left symbolic, so
//! simplification never introduces a binary64 approximation.
use vstd::prelude::*;
use crate::ast::{
    all_well_formed, lemma_built_well_formed, well_formed,
    binary, binary_node, int_expr, int_node, is_one, is_one_node, is_zero, is_zero_node,
    negate, negated, number_expr, number_node, one_expr, zero_expr,
};
use crate::error::{budget_ok, exhausted, Budget, EngineError, ErrorCode, Limits};
use crate::evaluate::{exact_call, exact_call_result, exact_pow, nums_view, pow_result};
use crate::expr::{
    arg_names_view, arg_values_view, clone_expr, clone_name, lemma_exprs_view_push, clone_ops, expr_eq, exprs_view,
    field_values_view, lemma_arg_values_view, lemma_exprs_view, lemma_field_values_view,
    name_view, BinaryOp, CallArg, Expr, ExprV, UnaryOp,
};
use crate::number::{big_add, big_div, big_mul, big_rem, rat_add, rat_div, rat_int, rat_mul, rat_neg, rat_rem, Number, Rat};

verus! {

/// `e` when `positive`, its negation otherwise.
pub open spec fn signed(e: ExprV, positive: bool) -> ExprV {
    if positive {
        e
    } else {
        negated(e)
    }
}

pub open spec fn signed_rat(q: Rat, positive: bool) -> Rat {
    if positive {
        q
    } else {
        rat_neg(q)
    }
}

/// The signed terms of a sum, flattening `+`, `-`, and negation.
pub open spec fn sum_terms(e: ExprV, positive: bool) -> Seq<ExprV>
    decreases e,
{
    match e {
        ExprV::Binary { op, left, right } => {
            if op == BinaryOp::Add {
                sum_terms(*left, positive) + sum_terms(*right, positive)
            } else if op == BinaryOp::Sub {
                sum_terms(*left, positive) + sum_terms(*right, !positive)
            } else {
                seq![signed(e, positive)]
            }
        },
        ExprV::Unary { op, arg } => {
            if op == UnaryOp::Neg {
                sum_terms(*arg, !positive)
            } else {
                seq![signed(e, positive)]
            }
        },
        ExprV::Number(q) => seq![number_node(signed_rat(q, positive))],
        _ => seq![signed(e, positive)],
    }
}

/// Nodes visited while flattening a sum.
pub open spec fn sum_visits(e: ExprV) -> nat
    decreases e,
{
    match e {
        ExprV::Binary { op, left, right } => {
            if op == BinaryOp::Add || op == BinaryOp::Sub {
                1 + sum_visits(*left) + sum_visits(*right)
            } else {
                1
            }
        },
        ExprV::Unary { op, arg } => {
            if op == UnaryOp::Neg {
                1 + sum_visits(*arg)
            } else {
                1
            }
        },
        _ => 1,
    }
}

/// First index at or after `k` holding `x`, or -1.
pub open spec fn find_from(s: Seq<ExprV>, x: ExprV, k: int) -> int
    decreases s.len() - k,
{
    if k < 0 || k >= s.len() {
        -1
    } else if s[k] == x {
        k
    } else {
        find_from(s, x, k + 1)
    }
}

/// Cancel each term against the first later term that is its negation.
pub open spec fn cancel(s: Seq<ExprV>) -> Seq<ExprV>
    decreases s.len(),
{
    if s.len() == 0 {
        Seq::empty()
    } else {
        let rest = s.drop_first();
        let j = find_from(rest, negated(s[0]), 0);
        if 0 <= j < rest.len() {
            cancel(rest.remove(j))
        } else {
            seq![s[0]] + cancel(rest)
        }
    }
}

/// A numeric constant term: a literal or the negation of a literal.
pub open spec fn constant_value(e: ExprV) -> Option<Rat> {
    match e {
        ExprV::Number(q) => Some(q),
        ExprV::Unary { op, arg } => {
            if op == UnaryOp::Neg {
                match *arg {
                    ExprV::Number(q) => Some(rat_neg(q)),
                    _ => None,
                }
            } else {
                None
            }
        },
        _ => None,
    }
}

/// The non-constant terms, the sum of the constant terms, and the position
/// of the first constant among the non-constant terms.
pub open spec fn split_constants(s: Seq<ExprV>) -> (Seq<ExprV>, Rat, Option<int>)
    decreases s.len(),
{
    if s.len() == 0 {
        (Seq::empty(), rat_int(0), None)
    } else {
        let (rest, c, idx) = split_constants(s.drop_last());
        match constant_value(s.last()) {
            Some(v) => (
                rest,
                rat_add(c, v),
                if idx is None {
                    Some(rest.len() as int)
                } else {
                    idx
                },
            ),
            None => (rest.push(s.last()), c, idx),
        }
    }
}

/// The terms with their constants folded into one nonzero literal placed
/// where the first constant stood.
pub open spec fn fold_constants(s: Seq<ExprV>) -> Seq<ExprV> {
    let (rest, c, idx) = split_constants(s);
    match idx {
        Some(i) => if c.num != 0 {
            rest.insert(i, number_node(c))
        } else {
            rest
        },
        None => rest,
    }
}

/// `-a` as a subtrahend: `-a` gives `a` and `(-a) * b` gives `a * b`.
pub open spec fn split_negative(e: ExprV) -> Option<ExprV> {
    match e {
        ExprV::Unary { op, arg } => if op == UnaryOp::Neg {
            Some(*arg)
        } else {
            None
        },
        ExprV::Binary { op, left, right } => {
            if op == BinaryOp::Mul {
                match *left {
                    ExprV::Unary { op: inner_op, arg } => if inner_op == UnaryOp::Neg {
                        Some(binary_node(BinaryOp::Mul, *arg, *right))
                    } else {
                        None
                    },
                    _ => None,
                }
            } else {
                None
            }
        },
        _ => None,
    }
}

/// Left-nested sum of the terms, subtracting negated terms.
pub open spec fn build_sum(s: Seq<ExprV>) -> ExprV
    decreases s.len(),
{
    if s.len() == 0 {
        int_node(0)
    } else if s.len() == 1 {
        s[0]
    } else {
        let acc = build_sum(s.drop_last());
        match split_negative(s.last()) {
            Some(p) => binary_node(BinaryOp::Sub, acc, p),
            None => binary_node(BinaryOp::Add, acc, s.last()),
        }
    }
}

pub open spec fn rebuild_sum(terms: Seq<ExprV>) -> ExprV {
    build_sum(fold_constants(cancel(terms)))
}

/// Numeric coefficient and remaining factors of a product, threading the
/// coefficient `c` and factor list `fs` accumulated so far. A negation over
/// a product negates it once: its sign goes to the first factor only.
pub open spec fn product_parts(e: ExprV, positive: bool, c: Rat, fs: Seq<ExprV>) -> (Rat, Seq<ExprV>)
    decreases e,
{
    match e {
        ExprV::Binary { op, left, right } => {
            if op == BinaryOp::Mul {
                let (c1, f1) = product_parts(*left, positive, c, fs);
                product_parts(*right, true, c1, f1)
            } else {
                (c, fs.push(signed(e, positive)))
            }
        },
        ExprV::Unary { op, arg } => {
            if op == UnaryOp::Neg {
                product_parts(*arg, !positive, c, fs)
            } else {
                (c, fs.push(signed(e, positive)))
            }
        },
        ExprV::Number(q) => (rat_mul(c, signed_rat(q, positive)), fs),
        _ => (c, fs.push(signed(e, positive))),
    }
}

/// Nodes visited while flattening a product.
pub open spec fn product_visits(e: ExprV) -> nat
    decreases e,
{
    match e {
        ExprV::Binary { op, left, right } => {
            if op == BinaryOp::Mul {
                1 + product_visits(*left) + product_visits(*right)
            } else {
                1
            }
        },
        ExprV::Unary { op, arg } => {
            if op == UnaryOp::Neg {
                1 + product_visits(*arg)
            } else {
                1
            }
        },
        _ => 1,
    }
}

/// Left-nested product of the factors.
pub open spec fn build_product(s: Seq<ExprV>) -> ExprV
    decreases s.len(),
{
    if s.len() == 0 {
        int_node(1)
    } else if s.len() == 1 {
        s[0]
    } else {
        binary_node(BinaryOp::Mul, build_product(s.drop_last()), s.last())
    }
}

pub open spec fn rebuild_product(c: Rat, fs: Seq<ExprV>) -> ExprV {
    if c.num == 0 {
        int_node(0)
    } else if c == rat_int(1) {
        build_product(fs)
    } else {
        build_product(seq![number_node(c)] + fs)
    }
}

pub open spec fn is_nonzero_literal(e: ExprV) -> bool {
    e matches ExprV::Number(q) && q.num != 0
}

/// Simplification of a binary node whose operands are already simplified.
pub open spec fn simp_binary(op: BinaryOp, l: ExprV, r: ExprV) -> ExprV {
    if op == BinaryOp::Add || op == BinaryOp::Sub {
        rebuild_sum(sum_terms(binary_node(op, l, r), true))
    } else if op == BinaryOp::Mul {
        let (c, fs) = product_parts(binary_node(op, l, r), true, rat_int(1), Seq::empty());
        rebuild_product(c, fs)
    } else if op == BinaryOp::Div {
        if is_one_node(r) {
            l
        } else if is_zero_node(l) && is_nonzero_literal(r) {
            int_node(0)
        } else if l == r && is_nonzero_literal(l) {
            int_node(1)
        } else {
            match (l, r) {
                (ExprV::Number(a), ExprV::Number(b)) => if b.num != 0 {
                    number_node(rat_div(a, b))
                } else {
                    binary_node(op, l, r)
                },
                _ => binary_node(op, l, r),
            }
        }
    } else if op == BinaryOp::Rem {
        match (l, r) {
            (ExprV::Number(a), ExprV::Number(b)) => if b.num != 0 {
                number_node(rat_rem(a, b))
            } else {
                binary_node(op, l, r)
            },
            _ => binary_node(op, l, r),
        }
    } else if op == BinaryOp::Pow {
        if r matches ExprV::Number(q) && q == rat_int(1) {
            l
        } else if r matches ExprV::Number(q) && q.num == 0 {
            int_node(1)
        } else if is_one_node(l) {
            int_node(1)
        } else {
            match (l, r) {
                (ExprV::Number(a), ExprV::Number(b)) => match pow_result(a, b) {
                    Ok(v) => number_node(v),
                    Err(_) => binary_node(op, l, r),
                },
                _ => binary_node(op, l, r),
            }
        }
    } else {
        binary_node(op, l, r)
    }
}

/// All arguments are unnamed literals.
pub open spec fn all_literal_args(names: Seq<Option<Seq<char>>>, args: Seq<ExprV>) -> bool {
    forall|i: int| 0 <= i < args.len() ==> names[i] is None && (#[trigger] args[i]) is Number
}

pub open spec fn literal_values(args: Seq<ExprV>) -> Seq<Rat> {
    args.map_values(|a: ExprV| a->Number_0)
}

/// Simplification of a call whose arguments are already simplified.
pub open spec fn simp_call(name: Seq<char>, names: Seq<Option<Seq<char>>>, args: Seq<ExprV>) -> ExprV {
    let kept = ExprV::Call { name, arg_names: names, args };
    if all_literal_args(names, args) {
        match exact_call_result(name, literal_values(args)) {
            Ok(v) => number_node(v),
            Err(_) => kept,
        }
    } else {
        kept
    }
}

/// The simplified form of an expression.
pub open spec fn simp(e: ExprV) -> ExprV
    decreases e,
{
    match e {
        ExprV::Number(q) => number_node(q),
        ExprV::Array(items) => ExprV::Array(simp_seq(items)),
        ExprV::Record { keys, values } => ExprV::Record { keys, values: simp_seq(values) },
        ExprV::Call { name, arg_names, args } => simp_call(name, arg_names, simp_seq(args)),
        ExprV::Unary { op, arg } => {
            let a = simp(*arg);
            if op == UnaryOp::Pos {
                a
            } else if op == UnaryOp::Neg {
                negated(a)
            } else {
                ExprV::Unary { op, arg: Box::new(a) }
            }
        },
        ExprV::Binary { op, left, right } => simp_binary(op, simp(*left), simp(*right)),
        ExprV::Compare { operands, ops } => ExprV::Compare { operands: simp_seq(operands), ops },
        _ => e,
    }
}

pub open spec fn simp_seq(s: Seq<ExprV>) -> Seq<ExprV>
    decreases s,
{
    if s.len() == 0 {
        Seq::empty()
    } else {
        simp_seq(s.drop_last()).push(simp(s.last()))
    }
}

pub proof fn lemma_simp_seq(s: Seq<ExprV>)
    ensures
        simp_seq(s).len() == s.len(),
        forall|i: int| 0 <= i < s.len() ==> #[trigger] simp_seq(s)[i] == simp(s[i]),
    decreases s.len(),
{
    if s.len() > 0 {
        lemma_simp_seq(s.drop_last());
    }
}

/// Operations counted while regrouping a binary node with simplified operands.
pub open spec fn binary_cost(op: BinaryOp, l: ExprV, r: ExprV) -> nat {
    if op == BinaryOp::Add || op == BinaryOp::Sub {
        sum_visits(binary_node(op, l, r))
    } else if op == BinaryOp::Mul {
        product_visits(binary_node(op, l, r))
    } else {
        0
    }
}

/// Operations counted by one simplification walk.
pub open spec fn scost(e: ExprV) -> nat
    decreases e,
{
    match e {
        ExprV::Array(items) => 1 + scosts(items),
        ExprV::Record { values, .. } => 1 + scosts(values),
        ExprV::Call { args, .. } => 1 + scosts(args),
        ExprV::Compare { operands, .. } => 1 + scosts(operands),
        ExprV::Unary { arg, .. } => 1 + scost(*arg),
        ExprV::Binary { op, left, right } => 1 + scost(*left) + scost(*right) + binary_cost(
            op,
            simp(*left),
            simp(*right),
        ),
        _ => 1,
    }
}

pub open spec fn scosts(s: Seq<ExprV>) -> nat
    decreases s,
{
    if s.len() == 0 {
        0
    } else {
        scosts(s.drop_last()) + scost(s.last())
    }
}

proof fn lemma_scosts_step(s: Seq<ExprV>, i: int)
    requires
        0 <= i < s.len(),
    ensures
        scosts(s.subrange(0, i + 1)) == scosts(s.subrange(0, i)) + scost(s[i]),
{
    assert(s.subrange(0, i + 1).drop_last() =~= s.subrange(0, i));
}

proof fn lemma_scosts_prefix(s: Seq<ExprV>, i: int)
    requires
        0 <= i <= s.len(),
    ensures
        scosts(s.subrange(0, i)) <= scosts(s),
    decreases s.len() - i,
{
    if i < s.len() {
        lemma_scosts_prefix(s, i + 1);
        lemma_scosts_step(s, i);
    } else {
        assert(s.subrange(0, i) =~= s);
    }
}

/// Flatten a sum into signed terms, appending them to `terms`.
fn collect_sum(expr: &Expr, positive: bool, terms: &mut Vec<Expr>, budget: &mut Budget) -> (r:
    Result<(), EngineError>)
    ensures
        budget_ok(*old(budget), *final(budget), sum_visits(expr@) as int, exhausted(r)),
        r is Ok ==> exprs_view(final(terms)@) == exprs_view(old(terms)@) + sum_terms(
            expr@,
            positive,
        ),
        r matches Err(e) ==> e.code == ErrorCode::ResourceLimit,
    decreases expr,
{
    budget.tick()?;
    match expr {
        Expr::Binary { op: BinaryOp::Add, left, right } => {
            collect_sum(left, positive, terms, budget)?;
            collect_sum(right, positive, terms, budget)?;
            assert(exprs_view(terms@) =~= exprs_view(old(terms)@) + sum_terms(expr@, positive));
            Ok(())
        },
        Expr::Binary { op: BinaryOp::Sub, left, right } => {
            collect_sum(left, positive, terms, budget)?;
            collect_sum(right, !positive, terms, budget)?;
            assert(exprs_view(terms@) =~= exprs_view(old(terms)@) + sum_terms(expr@, positive));
            Ok(())
        },
        Expr::Unary { op: UnaryOp::Neg, expr: inner } => collect_sum(inner, !positive, terms, budget),
        Expr::Number(value) => {
            let signed_value = if positive {
                value.copy()
            } else {
                value.neg()
            };
            let term = number_expr(signed_value);
            proof {
                lemma_exprs_view_push(terms@, term);
            }
            terms.push(term);
            assert(exprs_view(terms@) =~= exprs_view(old(terms)@) + sum_terms(expr@, positive));
            Ok(())
        },
        _ => {
            let term = if positive {
                clone_expr(expr)
            } else {
                negate(clone_expr(expr))
            };
            proof {
                lemma_exprs_view_push(terms@, term);
            }
            terms.push(term);
            assert(exprs_view(terms@) =~= exprs_view(old(terms)@) + sum_terms(expr@, positive));
            Ok(())
        },
    }
}

proof fn lemma_exprs_view_remove(v: Seq<Expr>, j: int)
    requires
        0 <= j < v.len(),
    ensures
        exprs_view(v.remove(j)) == exprs_view(v).remove(j),
{
    lemma_exprs_view(v);
    lemma_exprs_view(v.remove(j));
    assert(exprs_view(v.remove(j)) =~= exprs_view(v).remove(j));
}

/// Cancel each term against the first later term equal to its negation.
fn cancel_terms(terms: Vec<Expr>) -> (r: Vec<Expr>)
    ensures
        exprs_view(r@) == cancel(exprs_view(terms@)),
{
    let ghost all = exprs_view(terms@);
    let mut work = terms;
    let mut kept: Vec<Expr> = Vec::new();
    assert(exprs_view(kept@) =~= Seq::<ExprV>::empty());
    assert(exprs_view(kept@) + cancel(exprs_view(work@)) =~= cancel(all));
    while work.len() > 0
        invariant
            cancel(all) == exprs_view(kept@) + cancel(exprs_view(work@)),
        decreases work.len(),
    {
        let ghost before = exprs_view(work@);
        proof {
            lemma_exprs_view(work@);
            lemma_exprs_view_remove(work@, 0);
        }
        let t = work.remove(0);
        let ghost w = exprs_view(work@);
        assert(before.drop_first() =~= w);
        assert(before[0] == t@);
        let opposite = negate(clone_expr(&t));
        let ghost kept_before = exprs_view(kept@);
        match find_expr(&work, &opposite) {
            Some(j) => {
                proof {
                    lemma_exprs_view_remove(work@, j as int);
                }
                work.remove(j);
            },
            None => {
                proof {
                    lemma_exprs_view_push(kept@, t);
                }
                kept.push(t);
                assert(exprs_view(kept@) + cancel(w) =~= kept_before + cancel(before));
            },
        }
    }
    assert(cancel(exprs_view(work@)) =~= Seq::<ExprV>::empty());
    assert(exprs_view(kept@) =~= cancel(all));
    kept
}

/// First position holding an expression equal to `target`.
fn find_expr(work: &Vec<Expr>, target: &Expr) -> (r: Option<usize>)
    ensures
        match r {
            Some(j) => j < work.len() && find_from(exprs_view(work@), target@, 0) == j,
            None => find_from(exprs_view(work@), target@, 0) == -1,
        },
{
    let ghost w = exprs_view(work@);
    proof {
        lemma_exprs_view(work@);
    }
    let mut j: usize = 0;
    while j < work.len()
        invariant
            w == exprs_view(work@),
            w.len() == work.len(),
            forall|k: int| 0 <= k < work.len() ==> #[trigger] w[k] == work@[k]@,
            j <= work.len(),
            find_from(w, target@, 0) == find_from(w, target@, j as int),
        decreases work.len() - j,
    {
        if expr_eq(&work[j], target) {
            return Some(j);
        }
        j = j + 1;
    }
    None
}

/// The numeric constant of a literal or negated literal term.
fn constant_of(e: &Expr) -> (r: Option<Number>)
    ensures
        r is Some <==> constant_value(e@) is Some,
        r matches Some(v) ==> constant_value(e@) == Some(v@),
{
    match e {
        Expr::Number(v) => Some(v.copy()),
        Expr::Unary { op, expr } => {
            if *op != UnaryOp::Neg {
                return None;
            }
            match &**expr {
                Expr::Number(v) => {
                    assert(expr@ == ExprV::Number(v@));
                    Some(v.neg())
                },
                _ => None,
            }
        },
        _ => None,
    }
}

/// Fold the constant terms into one literal placed where the first constant
/// stood; a zero constant disappears.
fn fold_constant_terms(terms: &Vec<Expr>) -> (r: Vec<Expr>)
    ensures
        exprs_view(r@) == fold_constants(exprs_view(terms@)),
{
    let ghost all = exprs_view(terms@);
    proof {
        lemma_exprs_view(terms@);
    }
    let mut constant = Number::zero();
    let mut has_constant = false;
    let mut constant_index: usize = 0;
    let mut rest: Vec<Expr> = Vec::new();
    let mut i: usize = 0;
    assert(all.subrange(0, 0) =~= Seq::<ExprV>::empty());
    assert(exprs_view(rest@) =~= Seq::<ExprV>::empty());
    while i < terms.len()
        invariant
            i <= terms.len(),
            all == exprs_view(terms@),
            all.len() == terms.len(),
            forall|k: int| 0 <= k < terms.len() ==> #[trigger] all[k] == terms@[k]@,
            split_constants(all.subrange(0, i as int)).0 == exprs_view(rest@),
            split_constants(all.subrange(0, i as int)).1 == constant@,
            split_constants(all.subrange(0, i as int)).2 == if has_constant {
                Some(constant_index as int)
            } else {
                None
            },
            has_constant ==> constant_index <= rest.len(),
        decreases terms.len() - i,
    {
        let ghost prefix = all.subrange(0, i as int + 1);
        assert(prefix.drop_last() =~= all.subrange(0, i as int));
        assert(prefix.last() == terms@[i as int]@);
        proof {
            lemma_exprs_view(rest@);
        }
        match constant_of(&terms[i]) {
            Some(value) => {
                constant = big_add(&constant, &value);
                if !has_constant {
                    constant_index = rest.len();
                    has_constant = true;
                }
            },
            None => {
                let term = clone_expr(&terms[i]);
                proof {
                    lemma_exprs_view_push(rest@, term);
                }
                rest.push(term);
            },
        }
        i = i + 1;
    }
    assert(all.subrange(0, terms.len() as int) =~= all);
    if has_constant && !constant.is_zero() {
        let literal = number_expr(constant);
        proof {
            lemma_exprs_view(rest@);
        }
        let ghost before = exprs_view(rest@);
        rest.insert(constant_index, literal);
        proof {
            lemma_exprs_view(rest@);
            assert(exprs_view(rest@) =~= before.insert(constant_index as int, literal@));
        }
    }
    rest
}

/// The subtrahend of a negated term.
fn split_negative_of(e: &Expr) -> (r: Option<Expr>)
    ensures
        r is Some <==> split_negative(e@) is Some,
        r matches Some(p) ==> split_negative(e@) == Some(p@),
{
    match e {
        Expr::Unary { op, expr } => {
            if *op == UnaryOp::Neg {
                Some(clone_expr(expr))
            } else {
                None
            }
        },
        Expr::Binary { op, left, right } => {
            if *op != BinaryOp::Mul {
                return None;
            }
            match &**left {
                Expr::Unary { op: inner_op, expr } => {
                    assert(left@ == ExprV::Unary { op: *inner_op, arg: Box::new(expr@) });
                    if *inner_op == UnaryOp::Neg {
                        Some(binary(BinaryOp::Mul, clone_expr(expr), clone_expr(right)))
                    } else {
                        None
                    }
                },
                _ => None,
            }
        },
        _ => None,
    }
}

/// Left-nested sum of the terms.
fn build_sum_expr(terms: &Vec<Expr>) -> (r: Expr)
    ensures
        r@ == build_sum(exprs_view(terms@)),
{
    let ghost all = exprs_view(terms@);
    proof {
        lemma_exprs_view(terms@);
    }
    if terms.len() == 0 {
        return zero_expr();
    }
    let mut acc = clone_expr(&terms[0]);
    assert(all.subrange(0, 1).len() == 1);
    let mut i: usize = 1;
    while i < terms.len()
        invariant
            1 <= i <= terms.len(),
            all == exprs_view(terms@),
            all.len() == terms.len(),
            forall|k: int| 0 <= k < terms.len() ==> #[trigger] all[k] == terms@[k]@,
            acc@ == build_sum(all.subrange(0, i as int)),
        decreases terms.len() - i,
    {
        let ghost prefix = all.subrange(0, i as int + 1);
        assert(prefix.drop_last() =~= all.subrange(0, i as int));
        assert(prefix.last() == terms@[i as int]@);
        acc = match split_negative_of(&terms[i]) {
            Some(positive) => binary(BinaryOp::Sub, acc, positive),
            None => binary(BinaryOp::Add, acc, clone_expr(&terms[i])),
        };
        i = i + 1;
    }
    assert(all.subrange(0, terms.len() as int) =~= all);
    acc
}

/// Cancel opposite terms, fold constants, and rebuild the sum.
fn rebuild_sum_expr(terms: Vec<Expr>) -> (r: Expr)
    ensures
        r@ == rebuild_sum(exprs_view(terms@)),
{
    let kept = cancel_terms(terms);
    let folded = fold_constant_terms(&kept);
    build_sum_expr(&folded)
}

/// Flatten a product: fold literal factors into `constant` and append the
/// other factors to `factors`.
fn collect_product(
    expr: &Expr,
    positive: bool,
    constant: &mut Number,
    factors: &mut Vec<Expr>,
    budget: &mut Budget,
) -> (r: Result<(), EngineError>)
    ensures
        budget_ok(*old(budget), *final(budget), product_visits(expr@) as int, exhausted(r)),
        r is Ok ==> (final(constant)@, exprs_view(final(factors)@)) == product_parts(
            expr@,
            positive,
            old(constant)@,
            exprs_view(old(factors)@),
        ),
        r matches Err(e) ==> e.code == ErrorCode::ResourceLimit,
    decreases expr,
{
    budget.tick()?;
    match expr {
        Expr::Binary { op: BinaryOp::Mul, left, right } => {
            collect_product(left, positive, constant, factors, budget)?;
            collect_product(right, true, constant, factors, budget)
        },
        Expr::Unary { op: UnaryOp::Neg, expr: inner } => collect_product(
            inner,
            !positive,
            constant,
            factors,
            budget,
        ),
        Expr::Number(value) => {
            let signed_value = if positive {
                value.copy()
            } else {
                value.neg()
            };
            *constant = big_mul(constant, &signed_value);
            Ok(())
        },
        _ => {
            let factor = if positive {
                clone_expr(expr)
            } else {
                negate(clone_expr(expr))
            };
            proof {
                lemma_exprs_view_push(factors@, factor);
            }
            factors.push(factor);
            Ok(())
        },
    }
}

/// Left-nested product of the factors.
fn build_product_expr(factors: &Vec<Expr>) -> (r: Expr)
    ensures
        r@ == build_product(exprs_view(factors@)),
{
    let ghost all = exprs_view(factors@);
    proof {
        lemma_exprs_view(factors@);
    }
    if factors.len() == 0 {
        return one_expr();
    }
    let mut acc = clone_expr(&factors[0]);
    let mut i: usize = 1;
    while i < factors.len()
        invariant
            1 <= i <= factors.len(),
            all == exprs_view(factors@),
            all.len() == factors.len(),
            forall|k: int| 0 <= k < factors.len() ==> #[trigger] all[k] == factors@[k]@,
            acc@ == build_product(all.subrange(0, i as int)),
        decreases factors.len() - i,
    {
        let ghost prefix = all.subrange(0, i as int + 1);
        assert(prefix.drop_last() =~= all.subrange(0, i as int));
        assert(prefix.last() == factors@[i as int]@);
        acc = binary(BinaryOp::Mul, acc, clone_expr(&factors[i]));
        i = i + 1;
    }
    assert(all.subrange(0, factors.len() as int) =~= all);
    acc
}

/// Rebuild a product from its coefficient and factors.
fn rebuild_product_expr(constant: Number, factors: Vec<Expr>) -> (r: Expr)
    ensures
        r@ == rebuild_product(constant@, exprs_view(factors@)),
{
    if constant.is_zero() {
        return zero_expr();
    }
    if constant.is_one() {
        return build_product_expr(&factors);
    }
    let literal = number_expr(constant);
    let mut parts = factors;
    proof {
        lemma_exprs_view(parts@);
    }
    let ghost before = exprs_view(parts@);
    parts.insert(0, literal);
    proof {
        lemma_exprs_view(parts@);
        assert(exprs_view(parts@) =~= before.insert(0, literal@));
        assert(before.insert(0, literal@) =~= seq![literal@] + before);
    }
    build_product_expr(&parts)
}

fn is_nonzero_literal_expr(e: &Expr) -> (r: bool)
    ensures
        r == is_nonzero_literal(e@),
{
    match e {
        Expr::Number(v) => !v.is_zero(),
        _ => false,
    }
}

/// Simplify a binary node whose operands are already simplified.
fn simplify_binary(op: BinaryOp, left: Expr, right: Expr, budget: &mut Budget) -> (r: Result<
    Expr,
    EngineError,
>)
    ensures
        budget_ok(*old(budget), *final(budget), binary_cost(op, left@, right@) as int, exhausted(r)),
        r matches Ok(x) ==> x@ == simp_binary(op, left@, right@),
        r matches Err(e) ==> e.code == ErrorCode::ResourceLimit,
{
    match op {
        BinaryOp::Add | BinaryOp::Sub => {
            let sum = binary(op, left, right);
            let mut terms: Vec<Expr> = Vec::new();
            assert(exprs_view(terms@) =~= Seq::<ExprV>::empty());
            collect_sum(&sum, true, &mut terms, budget)?;
            assert(exprs_view(terms@) =~= sum_terms(sum@, true));
            Ok(rebuild_sum_expr(terms))
        },
        BinaryOp::Mul => {
            let product = binary(op, left, right);
            let mut constant = Number::one();
            let mut factors: Vec<Expr> = Vec::new();
            assert(exprs_view(factors@) =~= Seq::<ExprV>::empty());
            collect_product(&product, true, &mut constant, &mut factors, budget)?;
            Ok(rebuild_product_expr(constant, factors))
        },
        BinaryOp::Div => {
            if is_one(&right) {
                return Ok(left);
            }
            if is_zero(&left) && is_nonzero_literal_expr(&right) {
                return Ok(zero_expr());
            }
            if expr_eq(&left, &right) && is_nonzero_literal_expr(&left) {
                return Ok(one_expr());
            }
            if let (Expr::Number(a), Expr::Number(b)) = (&left, &right) {
                if !b.is_zero() {
                    return Ok(number_expr(big_div(a, b)));
                }
            }
            Ok(binary(op, left, right))
        },
        BinaryOp::Rem => {
            if let (Expr::Number(a), Expr::Number(b)) = (&left, &right) {
                if !b.is_zero() {
                    return Ok(number_expr(big_rem(a, b)));
                }
            }
            Ok(binary(op, left, right))
        },
        BinaryOp::Pow => {
            if let Expr::Number(exponent) = &right {
                if exponent.is_one() {
                    return Ok(left);
                }
                if exponent.is_zero() {
                    return Ok(one_expr());
                }
            }
            if is_one(&left) {
                return Ok(one_expr());
            }
            if let (Expr::Number(a), Expr::Number(b)) = (&left, &right) {
                if let Ok(v) = exact_pow(a, b) {
                    return Ok(number_expr(v));
                }
            }
            Ok(binary(op, left, right))
        },
        _ => Ok(binary(op, left, right)),
    }
}

/// The values of the arguments when every one is an unnamed literal.
fn literal_numbers(args: &Vec<CallArg>) -> (r: Option<Vec<Number>>)
    ensures
        r is Some <==> all_literal_args(arg_names_view(args@), arg_values_view(args@)),
        r matches Some(v) ==> nums_view(v@) == literal_values(arg_values_view(args@)),
{
    let ghost views = arg_values_view(args@);
    proof {
        lemma_arg_values_view(args@);
    }
    let mut numbers: Vec<Number> = Vec::new();
    let mut i: usize = 0;
    while i < args.len()
        invariant
            i <= args.len(),
            numbers.len() == i,
            views == arg_values_view(args@),
            views.len() == args.len(),
            forall|j: int| 0 <= j < args.len() ==> #[trigger] views[j] == args@[j].value@,
            forall|j: int| 0 <= j < i ==> (#[trigger] arg_names_view(args@)[j]) is None,
            forall|j: int| 0 <= j < i ==> (#[trigger] views[j]) is Number,
            forall|j: int| 0 <= j < i ==> #[trigger] numbers@[j]@ == views[j]->Number_0,
        decreases args.len() - i,
    {
        assert(arg_names_view(args@)[i as int] == name_view(args@[i as int].name));
        if args[i].name.is_some() {
            return None;
        }
        match &args[i].value {
            Expr::Number(v) => {
                assert(views[i as int] == ExprV::Number(v@));
                numbers.push(v.copy());
            },
            _ => {
                assert(!(views[i as int] is Number));
                return None;
            },
        }
        i = i + 1;
    }
    assert(nums_view(numbers@) =~= literal_values(views));
    Some(numbers)
}

/// A call whose arguments are already simplified: its exact value when every
/// argument is an unnamed literal and the function has one.
fn simplify_call(name: &String, simplified: Vec<CallArg>) -> (r: Expr)
    ensures
        r@ == simp_call(name@, arg_names_view(simplified@), arg_values_view(simplified@)),
{
    if let Some(numbers) = literal_numbers(&simplified) {
        if let Ok(v) = exact_call(name.as_str(), &numbers) {
            return number_expr(v);
        }
    }
    Expr::Call { name: name.clone(), args: simplified }
}

fn simplify_inner(expr: &Expr, budget: &mut Budget) -> (r: Result<Expr, EngineError>)
    ensures
        budget_ok(*old(budget), *final(budget), scost(expr@) as int, exhausted(r)),
        r matches Ok(x) ==> x@ == simp(expr@),
        r matches Err(e) ==> e.code == ErrorCode::ResourceLimit,
    decreases expr,
{
    budget.tick()?;
    match expr {
        Expr::Number(value) => Ok(number_expr(value.copy())),
        Expr::Array(items) => Ok(Expr::Array(simplify_exprs(items, budget)?)),
        Expr::Record(fields) => Ok(Expr::Record(simplify_fields(fields, budget)?)),
        Expr::Call { name, args } => {
            let simplified = simplify_args(args, budget)?;
            assert(arg_names_view(simplified@) =~= arg_names_view(args@));
            Ok(simplify_call(name, simplified))
        },
        Expr::Unary { op, expr: inner } => {
            let a = simplify_inner(inner, budget)?;
            match op {
                UnaryOp::Pos => Ok(a),
                UnaryOp::Neg => Ok(negate(a)),
                UnaryOp::Not => Ok(Expr::Unary { op: UnaryOp::Not, expr: Box::new(a) }),
            }
        },
        Expr::Binary { op, left, right } => {
            let l = simplify_inner(left, budget)?;
            let r = simplify_inner(right, budget)?;
            simplify_binary(*op, l, r, budget)
        },
        Expr::Compare { operands, ops } => {
            let operands = simplify_exprs(operands, budget)?;
            Ok(Expr::Compare { operands, ops: clone_ops(ops) })
        },
        _ => Ok(clone_expr(expr)),
    }
}

fn simplify_exprs(xs: &Vec<Expr>, budget: &mut Budget) -> (r: Result<Vec<Expr>, EngineError>)
    ensures
        budget_ok(*old(budget), *final(budget), scosts(exprs_view(xs@)) as int, exhausted(r)),
        r matches Ok(out) ==> exprs_view(out@) == simp_seq(exprs_view(xs@)),
        
        r matches Err(e) ==> e.code == ErrorCode::ResourceLimit,
    decreases xs,
{
    let ghost views = exprs_view(xs@);
    proof {
        lemma_exprs_view(xs@);
        lemma_simp_seq(views);
    }
    let mut out: Vec<Expr> = Vec::new();
    let mut i: usize = 0;
    while i < xs.len()
        invariant
            i <= xs.len(),
            out.len() == i,
            views == exprs_view(xs@),
            views.len() == xs.len(),
            forall|j: int| 0 <= j < xs.len() ==> #[trigger] views[j] == xs@[j]@,
            forall|j: int| 0 <= j < i ==> #[trigger] out@[j]@ == simp(views[j]),
            
            budget.limit() == old(budget).limit(),
            old(budget).spent() <= budget.spent(),
            budget.spent() <= old(budget).spent() + scosts(views.subrange(0, i as int)),
        decreases xs.len() - i,
    {
        proof {
            lemma_scosts_step(views, i as int);
            lemma_scosts_prefix(views, i as int + 1);
        }
        let value = simplify_inner(&xs[i], budget)?;
        out.push(value);
        i = i + 1;
    }
    proof {
        assert(views.subrange(0, xs.len() as int) =~= views);
        lemma_exprs_view(out@);
        assert(exprs_view(out@) =~= simp_seq(views));
        
    }
    Ok(out)
}

fn simplify_fields(xs: &Vec<(String, Expr)>, budget: &mut Budget) -> (r: Result<Vec<(String, Expr)>, EngineError>)
    ensures
        budget_ok(*old(budget), *final(budget), scosts(field_values_view(xs@)) as int, exhausted(r)),
        r matches Ok(out) ==> field_values_view(out@) == simp_seq(field_values_view(xs@)),
        r matches Ok(out) ==> out@.map_values(|f: (String, Expr)| f.0@) == xs@.map_values(|f: (String, Expr)| f.0@),
        r matches Err(e) ==> e.code == ErrorCode::ResourceLimit,
    decreases xs,
{
    let ghost views = field_values_view(xs@);
    proof {
        lemma_field_values_view(xs@);
        lemma_simp_seq(views);
    }
    let mut out: Vec<(String, Expr)> = Vec::new();
    let mut i: usize = 0;
    while i < xs.len()
        invariant
            i <= xs.len(),
            out.len() == i,
            views == field_values_view(xs@),
            views.len() == xs.len(),
            forall|j: int| 0 <= j < xs.len() ==> #[trigger] views[j] == xs@[j].1@,
            forall|j: int| 0 <= j < i ==> #[trigger] out@[j].1@ == simp(views[j]),
            forall|j: int| 0 <= j < i ==> #[trigger] out@[j].0@ == xs@[j].0@,
            budget.limit() == old(budget).limit(),
            old(budget).spent() <= budget.spent(),
            budget.spent() <= old(budget).spent() + scosts(views.subrange(0, i as int)),
        decreases xs.len() - i,
    {
        proof {
            lemma_scosts_step(views, i as int);
            lemma_scosts_prefix(views, i as int + 1);
        }
        let value = simplify_inner(&xs[i].1, budget)?;
        out.push((xs[i].0.clone(), value));
        i = i + 1;
    }
    proof {
        assert(views.subrange(0, xs.len() as int) =~= views);
        lemma_field_values_view(out@);
        assert(field_values_view(out@) =~= simp_seq(views));
        assert(out@.map_values(|f: (String, Expr)| f.0@) =~= xs@.map_values(|f: (String, Expr)| f.0@));
    }
    Ok(out)
}

fn simplify_args(xs: &Vec<CallArg>, budget: &mut Budget) -> (r: Result<Vec<CallArg>, EngineError>)
    ensures
        budget_ok(*old(budget), *final(budget), scosts(arg_values_view(xs@)) as int, exhausted(r)),
        r matches Ok(out) ==> arg_values_view(out@) == simp_seq(arg_values_view(xs@)),
        r matches Ok(out) ==> out@.map_values(|a: CallArg| name_view(a.name)) == xs@.map_values(|a: CallArg| name_view(a.name)),
        r matches Err(e) ==> e.code == ErrorCode::ResourceLimit,
    decreases xs,
{
    let ghost views = arg_values_view(xs@);
    proof {
        lemma_arg_values_view(xs@);
        lemma_simp_seq(views);
    }
    let mut out: Vec<CallArg> = Vec::new();
    let mut i: usize = 0;
    while i < xs.len()
        invariant
            i <= xs.len(),
            out.len() == i,
            views == arg_values_view(xs@),
            views.len() == xs.len(),
            forall|j: int| 0 <= j < xs.len() ==> #[trigger] views[j] == xs@[j].value@,
            forall|j: int| 0 <= j < i ==> #[trigger] out@[j].value@ == simp(views[j]),
            forall|j: int| 0 <= j < i ==> #[trigger] name_view(out@[j].name) == name_view(xs@[j].name),
            budget.limit() == old(budget).limit(),
            old(budget).spent() <= budget.spent(),
            budget.spent() <= old(budget).spent() + scosts(views.subrange(0, i as int)),
        decreases xs.len() - i,
    {
        proof {
            lemma_scosts_step(views, i as int);
            lemma_scosts_prefix(views, i as int + 1);
        }
        let value = simplify_inner(&xs[i].value, budget)?;
        out.push(CallArg { name: clone_name(&xs[i].name), value });
        i = i + 1;
    }
    proof {
        assert(views.subrange(0, xs.len() as int) =~= views);
        lemma_arg_values_view(out@);
        assert(arg_values_view(out@) =~= simp_seq(views));
        assert(out@.map_values(|a: CallArg| name_view(a.name)) =~= xs@.map_values(|a: CallArg| name_view(a.name)));
    }
    Ok(out)
}

// ---------------------------------------------------------------------------
// Simplification keeps trees well formed
// ---------------------------------------------------------------------------

pub open spec fn each_well_formed(s: Seq<ExprV>) -> bool {
    forall|i: int| 0 <= i < s.len() ==> #[trigger] well_formed(s[i])
}

proof fn lemma_concat_well_formed(a: Seq<ExprV>, b: Seq<ExprV>)
    requires
        each_well_formed(a),
        each_well_formed(b),
    ensures
        each_well_formed(a + b),
{
    assert forall|i: int| 0 <= i < (a + b).len() implies #[trigger] well_formed((a + b)[i]) by {
        if i < a.len() {
            assert((a + b)[i] == a[i]);
        } else {
            assert((a + b)[i] == b[i - a.len()]);
        }
    }
}

proof fn lemma_sum_terms_well_formed(e: ExprV, positive: bool)
    requires
        well_formed(e),
    ensures
        each_well_formed(sum_terms(e, positive)),
    decreases e,
{
    lemma_built_well_formed();
    match e {
        ExprV::Binary { op, left, right } => {
            if op == BinaryOp::Add || op == BinaryOp::Sub {
                lemma_sum_terms_well_formed(*left, positive);
                lemma_sum_terms_well_formed(*right, positive);
                lemma_sum_terms_well_formed(*right, !positive);
                lemma_concat_well_formed(sum_terms(*left, positive), sum_terms(*right, positive));
                lemma_concat_well_formed(sum_terms(*left, positive), sum_terms(*right, !positive));
            } else {
                assert(well_formed(signed(e, positive)));
            }
        },
        ExprV::Unary { op, arg } => {
            if op == UnaryOp::Neg {
                lemma_sum_terms_well_formed(*arg, !positive);
            } else {
                assert(well_formed(signed(e, positive)));
            }
        },
        ExprV::Number(q) => {
            assert(well_formed(number_node(signed_rat(q, positive))));
        },
        _ => {
            assert(well_formed(signed(e, positive)));
        },
    }
}

proof fn lemma_cancel_well_formed(s: Seq<ExprV>)
    requires
        each_well_formed(s),
    ensures
        each_well_formed(cancel(s)),
    decreases s.len(),
{
    if s.len() > 0 {
        let rest = s.drop_first();
        assert(each_well_formed(rest)) by {
            assert forall|k: int| 0 <= k < rest.len() implies #[trigger] well_formed(rest[k]) by {
                assert(rest[k] == s[k + 1]);
            }
        }
        let j = find_from(rest, negated(s[0]), 0);
        if 0 <= j < rest.len() {
            let smaller = rest.remove(j);
            assert forall|k: int| 0 <= k < smaller.len() implies #[trigger] well_formed(
                smaller[k],
            ) by {
                if k < j {
                    assert(smaller[k] == rest[k]);
                } else {
                    assert(smaller[k] == rest[k + 1]);
                }
            }
            lemma_cancel_well_formed(smaller);
        } else {
            lemma_cancel_well_formed(rest);
            assert(well_formed(seq![s[0]][0]));
            lemma_concat_well_formed(seq![s[0]], cancel(rest));
        }
    }
}

proof fn lemma_split_constants_well_formed(s: Seq<ExprV>)
    requires
        each_well_formed(s),
    ensures
        each_well_formed(split_constants(s).0),
        split_constants(s).2 matches Some(i) ==> 0 <= i <= split_constants(s).0.len(),
    decreases s.len(),
{
    if s.len() > 0 {
        assert(each_well_formed(s.drop_last())) by {
            assert forall|k: int| 0 <= k < s.drop_last().len() implies #[trigger] well_formed(
                s.drop_last()[k],
            ) by {
                assert(s.drop_last()[k] == s[k]);
            }
        }
        lemma_split_constants_well_formed(s.drop_last());
        assert(well_formed(s[s.len() - 1]));
    }
}

proof fn lemma_fold_constants_well_formed(s: Seq<ExprV>)
    requires
        each_well_formed(s),
    ensures
        each_well_formed(fold_constants(s)),
{
    lemma_built_well_formed();
    lemma_split_constants_well_formed(s);
    let (rest, c, idx) = split_constants(s);
    if let Some(i) = idx {
        if c.num != 0 {
            let x = number_node(c);
            let out = rest.insert(i, x);
            assert forall|k: int| 0 <= k < out.len() implies #[trigger] well_formed(out[k]) by {
                if k < i {
                    assert(out[k] == rest[k]);
                } else if k == i {
                    assert(out[k] == x);
                } else {
                    assert(out[k] == rest[k - 1]);
                }
            }
        }
    }
}

proof fn lemma_build_sum_well_formed(s: Seq<ExprV>)
    requires
        each_well_formed(s),
    ensures
        well_formed(build_sum(s)),
    decreases s.len(),
{
    lemma_built_well_formed();
    if s.len() > 1 {
        assert(each_well_formed(s.drop_last())) by {
            assert forall|k: int| 0 <= k < s.drop_last().len() implies #[trigger] well_formed(
                s.drop_last()[k],
            ) by {
                assert(s.drop_last()[k] == s[k]);
            }
        }
        lemma_build_sum_well_formed(s.drop_last());
        assert(well_formed(s[s.len() - 1]));
        match s.last() {
            ExprV::Binary { op, left, right } => {
                assert(well_formed(*left));
            },
            _ => {},
        }
    } else if s.len() == 1 {
        assert(well_formed(s[0]));
    }
}

proof fn lemma_product_parts_well_formed(e: ExprV, positive: bool, c: Rat, fs: Seq<ExprV>)
    requires
        well_formed(e),
        each_well_formed(fs),
    ensures
        each_well_formed(product_parts(e, positive, c, fs).1),
    decreases e,
{
    lemma_built_well_formed();
    match e {
        ExprV::Binary { op, left, right } => {
            if op == BinaryOp::Mul {
                lemma_product_parts_well_formed(*left, positive, c, fs);
                let (c1, f1) = product_parts(*left, positive, c, fs);
                lemma_product_parts_well_formed(*right, true, c1, f1);
            } else {
                assert(well_formed(signed(e, positive)));
            }
        },
        ExprV::Unary { op, arg } => {
            if op == UnaryOp::Neg {
                lemma_product_parts_well_formed(*arg, !positive, c, fs);
            } else {
                assert(well_formed(signed(e, positive)));
            }
        },
        ExprV::Number(_) => {},
        _ => {
            assert(well_formed(signed(e, positive)));
        },
    }
}

proof fn lemma_build_product_well_formed(s: Seq<ExprV>)
    requires
        each_well_formed(s),
    ensures
        well_formed(build_product(s)),
    decreases s.len(),
{
    lemma_built_well_formed();
    if s.len() > 1 {
        assert(each_well_formed(s.drop_last())) by {
            assert forall|k: int| 0 <= k < s.drop_last().len() implies #[trigger] well_formed(
                s.drop_last()[k],
            ) by {
                assert(s.drop_last()[k] == s[k]);
            }
        }
        lemma_build_product_well_formed(s.drop_last());
        assert(well_formed(s[s.len() - 1]));
    } else if s.len() == 1 {
        assert(well_formed(s[0]));
    }
}

proof fn lemma_simp_binary_well_formed(op: BinaryOp, l: ExprV, r: ExprV)
    requires
        well_formed(l),
        well_formed(r),
    ensures
        well_formed(simp_binary(op, l, r)),
{
    lemma_built_well_formed();
    if op == BinaryOp::Add || op == BinaryOp::Sub {
        let terms = sum_terms(binary_node(op, l, r), true);
        lemma_sum_terms_well_formed(binary_node(op, l, r), true);
        lemma_cancel_well_formed(terms);
        lemma_fold_constants_well_formed(cancel(terms));
        lemma_build_sum_well_formed(fold_constants(cancel(terms)));
    } else if op == BinaryOp::Mul {
        lemma_product_parts_well_formed(binary_node(op, l, r), true, rat_int(1), Seq::empty());
        let (c, fs) = product_parts(binary_node(op, l, r), true, rat_int(1), Seq::empty());
        lemma_build_product_well_formed(fs);
        let with_constant = seq![number_node(c)] + fs;
        assert(well_formed(seq![number_node(c)][0]));
        lemma_concat_well_formed(seq![number_node(c)], fs);
        lemma_build_product_well_formed(with_constant);
    }
}

/// Simplification keeps trees well formed.
pub proof fn lemma_simp_well_formed(e: ExprV)
    requires
        well_formed(e),
    ensures
        well_formed(simp(e)),
    decreases e,
{
    lemma_built_well_formed();
    match e {
        ExprV::Array(items) => lemma_simp_seq_well_formed(items),
        ExprV::Record { values, .. } => lemma_simp_seq_well_formed(values),
        ExprV::Call { args, .. } => lemma_simp_seq_well_formed(args),
        ExprV::Compare { operands, .. } => {
            lemma_simp_seq_well_formed(operands);
            lemma_simp_seq(operands);
        },
        ExprV::Unary { arg, .. } => lemma_simp_well_formed(*arg),
        ExprV::Binary { op, left, right } => {
            lemma_simp_well_formed(*left);
            lemma_simp_well_formed(*right);
            lemma_simp_binary_well_formed(op, simp(*left), simp(*right));
        },
        _ => {},
    }
}

pub proof fn lemma_simp_seq_well_formed(s: Seq<ExprV>)
    requires
        all_well_formed(s),
    ensures
        all_well_formed(simp_seq(s)),
    decreases s,
{
    if s.len() > 0 {
        lemma_simp_seq_well_formed(s.drop_last());
        lemma_simp_well_formed(s.last());
        assert(simp_seq(s).drop_last() =~= simp_seq(s.drop_last()));
    }
}

// ---------------------------------------------------------------------------
// Identities that simplification removes
// ---------------------------------------------------------------------------

/// The top of a simplified tree: a literal is never negative, a negation is
/// never doubled, and a negated literal is positive.
pub open spec fn sign_canonical(e: ExprV) -> bool {
    match e {
        ExprV::Number(q) => q.num >= 0,
        ExprV::Unary { op, arg } => op == UnaryOp::Neg ==> match *arg {
            ExprV::Number(q) => q.num > 0,
            ExprV::Unary { op: inner, .. } => inner != UnaryOp::Neg,
            _ => true,
        },
        _ => true,
    }
}

pub open spec fn each_canonical(s: Seq<ExprV>) -> bool {
    forall|i: int| 0 <= i < s.len() ==> #[trigger] sign_canonical(s[i])
}

proof fn lemma_negated_canonical(e: ExprV)
    requires
        sign_canonical(e),
    ensures
        sign_canonical(negated(e)),
        negated(negated(e)) == e,
{
    match e {
        ExprV::Number(q) => {
            assert(rat_neg(rat_neg(q)) == q);
        },
        ExprV::Unary { op, arg } => {
            if op == UnaryOp::Neg {
                match *arg {
                    ExprV::Number(q) => {
                        assert(rat_neg(rat_neg(q)) == q);
                    },
                    _ => {},
                }
            }
        },
        _ => {},
    }
}

/// A leaf that flattening keeps whole is canonical with either sign.
proof fn lemma_leaf_canonical(e: ExprV, positive: bool)
    requires
        !(e is Number),
        !(e matches ExprV::Unary { op, .. } && op == UnaryOp::Neg),
    ensures
        sign_canonical(signed(e, positive)),
{
}

proof fn lemma_sum_terms_canonical(e: ExprV, positive: bool)
    ensures
        each_canonical(sum_terms(e, positive)),
    decreases e,
{
    match e {
        ExprV::Binary { op, left, right } => {
            if op == BinaryOp::Add || op == BinaryOp::Sub {
                lemma_sum_terms_canonical(*left, positive);
                lemma_sum_terms_canonical(*right, positive);
                lemma_sum_terms_canonical(*right, !positive);
                let a = sum_terms(*left, positive);
                let b = if op == BinaryOp::Add {
                    sum_terms(*right, positive)
                } else {
                    sum_terms(*right, !positive)
                };
                assert(sum_terms(e, positive) == a + b);
                assert forall|i: int| 0 <= i < (a + b).len() implies #[trigger] sign_canonical(
                    (a + b)[i],
                ) by {
                    if i < a.len() {
                        assert((a + b)[i] == a[i]);
                    } else {
                        assert((a + b)[i] == b[i - a.len()]);
                    }
                }
            } else {
                lemma_leaf_canonical(e, positive);
                assert(seq![signed(e, positive)][0] == signed(e, positive));
            }
        },
        ExprV::Unary { op, arg } => {
            if op == UnaryOp::Neg {
                lemma_sum_terms_canonical(*arg, !positive);
            } else {
                lemma_leaf_canonical(e, positive);
                assert(seq![signed(e, positive)][0] == signed(e, positive));
            }
        },
        ExprV::Number(q) => {
            assert(seq![number_node(signed_rat(q, positive))][0] == number_node(
                signed_rat(q, positive),
            ));
        },
        _ => {
            lemma_leaf_canonical(e, positive);
            assert(seq![signed(e, positive)][0] == signed(e, positive));
        },
    }
}

/// Cancelling keeps only terms of the list.
proof fn lemma_cancel_keeps(s: Seq<ExprV>, p: spec_fn(ExprV) -> bool)
    requires
        forall|i: int| 0 <= i < s.len() ==> #[trigger] p(s[i]),
    ensures
        forall|i: int| 0 <= i < cancel(s).len() ==> #[trigger] p(cancel(s)[i]),
    decreases s.len(),
{
    if s.len() > 0 {
        let rest = s.drop_first();
        assert forall|k: int| 0 <= k < rest.len() implies #[trigger] p(rest[k]) by {
            assert(rest[k] == s[k + 1]);
        }
        let j = find_from(rest, negated(s[0]), 0);
        if 0 <= j < rest.len() {
            let smaller = rest.remove(j);
            assert forall|k: int| 0 <= k < smaller.len() implies #[trigger] p(smaller[k]) by {
                if k < j {
                    assert(smaller[k] == rest[k]);
                } else {
                    assert(smaller[k] == rest[k + 1]);
                }
            }
            lemma_cancel_keeps(smaller, p);
            assert(cancel(s) == cancel(smaller));
        } else {
            lemma_cancel_keeps(rest, p);
            let c = cancel(rest);
            assert(cancel(s) == seq![s[0]] + c);
            assert(p(s[0]));
            assert forall|i: int| 0 <= i < (seq![s[0]] + c).len() implies #[trigger] p(
                (seq![s[0]] + c)[i],
            ) by {
                if i > 0 {
                    assert((seq![s[0]] + c)[i] == c[i - 1]);
                }
            }
        }
    }
}

/// Gathering constants keeps only terms of the list among the rest.
proof fn lemma_split_keeps(s: Seq<ExprV>, p: spec_fn(ExprV) -> bool)
    requires
        forall|i: int| 0 <= i < s.len() ==> #[trigger] p(s[i]),
    ensures
        forall|i: int| 0 <= i < split_constants(s).0.len() ==> #[trigger] p(
            split_constants(s).0[i],
        ),
        split_constants(s).2 matches Some(i) ==> 0 <= i <= split_constants(s).0.len(),
    decreases s.len(),
{
    if s.len() > 0 {
        let d = s.drop_last();
        assert forall|k: int| 0 <= k < d.len() implies #[trigger] p(d[k]) by {
            assert(d[k] == s[k]);
        }
        lemma_split_keeps(d, p);
        assert(p(s[s.len() - 1]));
        let r0 = split_constants(d).0;
        assert forall|k: int| 0 <= k < r0.push(s.last()).len() implies #[trigger] p(
            r0.push(s.last())[k],
        ) by {
            if k < r0.len() {
                assert(r0.push(s.last())[k] == r0[k]);
            }
        }
    }
}

proof fn lemma_build_sum_canonical(s: Seq<ExprV>)
    requires
        each_canonical(s),
    ensures
        sign_canonical(build_sum(s)),
{
    if s.len() == 1 {
        assert(sign_canonical(s[0]));
    }
}

proof fn lemma_product_parts_canonical(e: ExprV, positive: bool, c: Rat, fs: Seq<ExprV>)
    requires
        each_canonical(fs),
    ensures
        each_canonical(product_parts(e, positive, c, fs).1),
    decreases e,
{
    match e {
        ExprV::Binary { op, left, right } => {
            if op == BinaryOp::Mul {
                lemma_product_parts_canonical(*left, positive, c, fs);
                let (c1, f1) = product_parts(*left, positive, c, fs);
                lemma_product_parts_canonical(*right, true, c1, f1);
            } else {
                lemma_leaf_canonical(e, positive);
                assert(fs.push(signed(e, positive)).last() == signed(e, positive));
                assert forall|i: int| 0 <= i < fs.len() implies #[trigger] fs.push(
                    signed(e, positive),
                )[i] == fs[i] by {}
            }
        },
        ExprV::Unary { op, arg } => {
            if op == UnaryOp::Neg {
                lemma_product_parts_canonical(*arg, !positive, c, fs);
            } else {
                lemma_leaf_canonical(e, positive);
                assert(fs.push(signed(e, positive)).last() == signed(e, positive));
                assert forall|i: int| 0 <= i < fs.len() implies #[trigger] fs.push(
                    signed(e, positive),
                )[i] == fs[i] by {}
            }
        },
        ExprV::Number(_) => {},
        _ => {
            lemma_leaf_canonical(e, positive);
            assert(fs.push(signed(e, positive)).last() == signed(e, positive));
            assert forall|i: int| 0 <= i < fs.len() implies #[trigger] fs.push(
                signed(e, positive),
            )[i] == fs[i] by {}
        },
    }
}

proof fn lemma_build_product_canonical(s: Seq<ExprV>)
    requires
        each_canonical(s),
    ensures
        sign_canonical(build_product(s)),
{
    if s.len() == 1 {
        assert(sign_canonical(s[0]));
    }
}

proof fn lemma_simp_binary_canonical(op: BinaryOp, l: ExprV, r: ExprV)
    requires
        sign_canonical(l),
    ensures
        sign_canonical(simp_binary(op, l, r)),
{
    if op == BinaryOp::Add || op == BinaryOp::Sub {
        let terms = sum_terms(binary_node(op, l, r), true);
        lemma_sum_terms_canonical(binary_node(op, l, r), true);
        let pred = |t: ExprV| sign_canonical(t);
        assert forall|i: int| 0 <= i < terms.len() implies #[trigger] pred(terms[i]) by {
            assert(sign_canonical(terms[i]));
        }
        lemma_cancel_keeps(terms, pred);
        let kept = cancel(terms);
        lemma_split_keeps(kept, pred);
        let (rest, c, idx) = split_constants(kept);
        let folded = fold_constants(kept);
        assert(each_canonical(folded)) by {
            assert forall|k: int| 0 <= k < folded.len() implies #[trigger] sign_canonical(
                folded[k],
            ) by {
                assert(forall|i: int| 0 <= i < rest.len() ==> #[trigger] pred(rest[i]));
                if let Some(i) = idx {
                    if c.num != 0 {
                        let out = rest.insert(i, number_node(c));
                        if k < i {
                            assert(out[k] == rest[k]);
                            assert(pred(rest[k]));
                        } else if k > i {
                            assert(out[k] == rest[k - 1]);
                            assert(pred(rest[k - 1]));
                        }
                    } else {
                        assert(pred(rest[k]));
                    }
                } else {
                    assert(pred(rest[k]));
                }
            }
        }
        lemma_build_sum_canonical(folded);
    } else if op == BinaryOp::Mul {
        lemma_product_parts_canonical(binary_node(op, l, r), true, rat_int(1), Seq::empty());
        let (c, fs) = product_parts(binary_node(op, l, r), true, rat_int(1), Seq::empty());
        lemma_build_product_canonical(fs);
        let with_constant = seq![number_node(c)] + fs;
        assert(each_canonical(with_constant)) by {
            assert forall|k: int| 0 <= k < with_constant.len() implies #[trigger] sign_canonical(
                with_constant[k],
            ) by {
                if k > 0 {
                    assert(with_constant[k] == fs[k - 1]);
                }
            }
        }
        lemma_build_product_canonical(with_constant);
    }
}

/// A simplified tree is canonical at its top.
pub proof fn lemma_simp_canonical(e: ExprV)
    ensures
        sign_canonical(simp(e)),
    decreases e,
{
    match e {
        ExprV::Unary { op, arg } => {
            lemma_simp_canonical(*arg);
            if op == UnaryOp::Neg {
                lemma_negated_canonical(simp(*arg));
            }
        },
        ExprV::Binary { op, left, right } => {
            lemma_simp_canonical(*left);
            lemma_simp_binary_canonical(op, simp(*left), simp(*right));
        },
        _ => {},
    }
}

/// The product constant stays zero once it is zero.
proof fn lemma_product_parts_zero(e: ExprV, positive: bool, c: Rat, fs: Seq<ExprV>)
    requires
        c.num == 0,
    ensures
        product_parts(e, positive, c, fs).0.num == 0,
    decreases e,
{
    match e {
        ExprV::Binary { op, left, right } => {
            if op == BinaryOp::Mul {
                lemma_product_parts_zero(*left, positive, c, fs);
                let (c1, f1) = product_parts(*left, positive, c, fs);
                lemma_product_parts_zero(*right, true, c1, f1);
            }
        },
        ExprV::Unary { op, arg } => {
            if op == UnaryOp::Neg {
                lemma_product_parts_zero(*arg, !positive, c, fs);
            }
        },
        ExprV::Number(q) => {
            assert(c.num * signed_rat(q, positive).num == 0) by (nonlinear_arith)
                requires
                    c.num == 0,
            ;
        },
        _ => {},
    }
}

/// The identities that simplification removes, for every expression `x`:
/// `x ^ 1` and `x / 1` simplify as `x` does, `--x` simplifies as `x` does,
/// `x ^ 0` simplifies to `1`, `x * 0` and `0 * x` simplify to `0`, and a
/// positive literal divided by itself simplifies to `1`.
pub proof fn lemma_simplify_identities(x: ExprV, q: Rat)
    ensures
        simp(binary_node(BinaryOp::Pow, x, int_node(1))) == simp(x),
        simp(binary_node(BinaryOp::Div, x, int_node(1))) == simp(x),
        simp(
            ExprV::Unary {
                op: UnaryOp::Neg,
                arg: Box::new(ExprV::Unary { op: UnaryOp::Neg, arg: Box::new(x) }),
            },
        ) == simp(x),
        simp(binary_node(BinaryOp::Pow, x, int_node(0))) == int_node(1),
        simp(binary_node(BinaryOp::Mul, x, int_node(0))) == int_node(0),
        simp(binary_node(BinaryOp::Mul, int_node(0), x)) == int_node(0),
        q.num > 0 ==> simp(binary_node(BinaryOp::Div, ExprV::Number(q), ExprV::Number(q)))
            == int_node(1),
{
    lemma_simp_canonical(x);
    lemma_negated_canonical(simp(x));
    let y = simp(x);
    assert(simp(int_node(1)) == int_node(1));
    assert(simp(int_node(0)) == int_node(0));
    assert(simp(ExprV::Number(q)) == number_node(q));
    let nx = ExprV::Unary { op: UnaryOp::Neg, arg: Box::new(x) };
    assert(simp(nx) == negated(y));
    // x * 0
    let (c1, f1) = product_parts(y, true, rat_int(1), Seq::empty());
    assert(c1.num * 0 == 0) by (nonlinear_arith);
    let e0 = binary_node(BinaryOp::Mul, y, int_node(0));
    assert(product_parts(e0, true, rat_int(1), Seq::empty()) == product_parts(
        int_node(0),
        true,
        c1,
        f1,
    ));
    assert(product_parts(int_node(0), true, c1, f1).0 == rat_mul(c1, rat_int(0)));
    assert(rat_mul(c1, rat_int(0)).num == 0);
    // 0 * x
    assert(1 * 0 == 0int) by (nonlinear_arith);
    let z = rat_mul(rat_int(1), rat_int(0));
    assert(z.num == 0);
    let e1 = binary_node(BinaryOp::Mul, int_node(0), y);
    assert(product_parts(int_node(0), true, rat_int(1), Seq::empty()) == (z, Seq::<ExprV>::empty()));
    assert(product_parts(e1, true, rat_int(1), Seq::empty()) == product_parts(
        y,
        true,
        z,
        Seq::empty(),
    ));
    lemma_product_parts_zero(y, true, z, Seq::empty());
}

/// Simplify an expression under the caller's limits: exact constants are
/// folded, additive and multiplicative identities dropped, and opposite terms
/// of a sum cancelled.
pub fn simplify(expr: &Expr, limits: &Limits) -> (r: Result<Expr, EngineError>)
    ensures
        r matches Ok(x) ==> x@ == simp(expr@),
        r matches Ok(x) ==> well_formed(expr@) ==> well_formed(x@),
        r matches Err(e) ==> e.code == ErrorCode::ResourceLimit,
        scost(expr@) <= limits.max_operations ==> r is Ok,
{
    let mut budget = Budget::new(limits.max_operations);
    proof {
        if well_formed(expr@) {
            lemma_simp_well_formed(expr@);
        }
    }
    simplify_inner(expr, &mut budget)
}

} // verus!
