//! Simplification keeps exact values.
//!
//! Wherever an expression has an exact value at a point, its simplified form
//! has the same exact value there.
use vstd::prelude::*;
use crate::ast::{binary_node, int_node, is_one_node, is_zero_node, negated, number_node};
use crate::evaluate::{
    binary_value, eval_exact, eval_exact_seq, exact_call_result, log_search, pow_result,
    MAX_LOG_SEARCH,
};
use crate::expr::{BinaryOp, ExprV, UnaryOp};
use crate::number::{
    abs, gcd, rat_add, rat_div, rat_int, rat_mul, rat_neg, reduced, square, square_root, trunc_rem,
    Rat,
};
use crate::rational::{
    all_reduced, lemma_int_reduced, lemma_neg_reduced, lemma_normalize, lemma_ops_reduced,
};
use crate::simplify::{
    all_literal_args, build_product, build_sum, cancel, constant_value, find_from,
    fold_constants, is_nonzero_literal, literal_values, product_parts, rebuild_product, signed,
    signed_rat, simp, simp_binary, simp_call, simp_seq, split_constants, split_negative,
    sum_terms,
};
use vstd::arithmetic::power::pow;

verus! {

// ---------------------------------------------------------------------------
// Literals in lowest terms
// ---------------------------------------------------------------------------

/// Every numeric literal of the tree is a fraction in lowest terms, as the
/// view of every [`crate::number::Number`] is.
pub open spec fn literals_reduced(e: ExprV) -> bool
    decreases e,
{
    match e {
        ExprV::Number(q) => reduced(q),
        ExprV::Array(items) => all_literals_reduced(items),
        ExprV::Record { values, .. } => all_literals_reduced(values),
        ExprV::Unary { arg, .. } => literals_reduced(*arg),
        ExprV::Binary { left, right, .. } => literals_reduced(*left) && literals_reduced(*right),
        ExprV::Compare { operands, .. } => all_literals_reduced(operands),
        ExprV::Call { args, .. } => all_literals_reduced(args),
        _ => true,
    }
}

pub open spec fn all_literals_reduced(s: Seq<ExprV>) -> bool
    decreases s,
{
    if s.len() == 0 {
        true
    } else {
        all_literals_reduced(s.drop_last()) && literals_reduced(s.last())
    }
}

pub proof fn lemma_all_literals_reduced(s: Seq<ExprV>)
    ensures
        all_literals_reduced(s) <==> forall|i: int|
            0 <= i < s.len() ==> #[trigger] literals_reduced(s[i]),
    decreases s.len(),
{
    if s.len() > 0 {
        lemma_all_literals_reduced(s.drop_last());
        if forall|i: int| 0 <= i < s.len() ==> #[trigger] literals_reduced(s[i]) {
            assert forall|i: int| 0 <= i < s.len() - 1 implies #[trigger] literals_reduced(
                s.drop_last()[i],
            ) by {
                assert(s.drop_last()[i] == s[i]);
            }
            assert(literals_reduced(s[s.len() - 1]));
        }
        if all_literals_reduced(s) {
            assert forall|i: int| 0 <= i < s.len() implies #[trigger] literals_reduced(s[i]) by {
                if i < s.len() - 1 {
                    assert(s.drop_last()[i] == s[i]);
                }
            }
        }
    }
}

/// Nodes built by simplification keep literals in lowest terms.
pub proof fn lemma_built_literals()
    ensures
        forall|q: Rat| reduced(q) ==> #[trigger] literals_reduced(number_node(q)),
        forall|e: ExprV| literals_reduced(e) ==> #[trigger] literals_reduced(negated(e)),
        forall|op: BinaryOp, l: ExprV, r: ExprV|
            #[trigger] literals_reduced(binary_node(op, l, r)) <==> literals_reduced(l)
                && literals_reduced(r),
        forall|k: int| #[trigger] literals_reduced(int_node(k)),
{
    assert forall|q: Rat| reduced(q) implies #[trigger] literals_reduced(number_node(q)) by {
        lemma_neg_reduced(q);
        if q.num < 0 {
            assert(literals_reduced(ExprV::Number(rat_neg(q))));
        }
    }
    assert forall|e: ExprV| literals_reduced(e) implies #[trigger] literals_reduced(negated(e)) by {
        match e {
            ExprV::Number(q) => {
                lemma_neg_reduced(q);
                lemma_neg_reduced(rat_neg(q));
            },
            _ => {},
        }
    }
    assert forall|k: int| #[trigger] literals_reduced(int_node(k)) by {
        lemma_int_reduced(k);
    }
}

// ---------------------------------------------------------------------------
// Exact values are in lowest terms
// ---------------------------------------------------------------------------

proof fn lemma_pow_nonzero(x: int, k: nat)
    requires
        x != 0,
    ensures
        pow(x, k) != 0,
    decreases k,
{
    reveal(pow);
    if k > 0 {
        lemma_pow_nonzero(x, (k - 1) as nat);
        assert(x * pow(x, (k - 1) as nat) != 0) by (nonlinear_arith)
            requires
                x != 0,
                pow(x, (k - 1) as nat) != 0,
        ;
    }
}

proof fn lemma_pow_result_reduced(a: Rat, b: Rat)
    requires
        reduced(a),
        pow_result(a, b) is Ok,
    ensures
        reduced(pow_result(a, b)->Ok_0),
{
    let e = b.num;
    if e >= 0 {
        vstd::arithmetic::power::lemma_pow_positive(a.den, e as nat);
        lemma_normalize(pow(a.num, e as nat), pow(a.den, e as nat));
    } else {
        lemma_pow_nonzero(a.num, (-e) as nat);
        lemma_normalize(pow(a.den, (-e) as nat), pow(a.num, (-e) as nat));
    }
}

proof fn lemma_log_search_reduced(value: Rat, base: Rat, k: nat, power: Rat)
    requires
        log_search(value, base, k, power) is Ok,
    ensures
        reduced(log_search(value, base, k, power)->Ok_0),
    decreases MAX_LOG_SEARCH + 1 - k,
{
    if k > MAX_LOG_SEARCH {
    } else if power == value {
        lemma_int_reduced(k as int);
    } else if power.num != 0 && rat_div(rat_int(1), power) == value {
        lemma_int_reduced(-k);
    } else {
        lemma_log_search_reduced(value, base, k + 1, rat_mul(power, base));
    }
}

proof fn lemma_call_result_reduced(name: Seq<char>, args: Seq<Rat>)
    requires
        all_reduced(args),
        exact_call_result(name, args) is Ok,
    ensures
        reduced(exact_call_result(name, args)->Ok_0),
{
    lemma_int_reduced(0);
    lemma_int_reduced(1);
    if name == "abs"@ {
        assert(reduced(args[0]));
        assert(abs(abs(args[0].num) as int) == abs(args[0].num));
    } else if name == "sqrt"@ {
        let a = args[0];
        assert(reduced(a));
        let rd = square_root(a.den);
        assert(square(rd) == a.den);
        assert(rd * rd == a.den);
        assert(rd != 0) by (nonlinear_arith)
            requires
                rd * rd == a.den,
                a.den > 0,
        ;
        lemma_normalize(square_root(a.num) as int, rd as int);
    } else if name == "pow"@ {
        assert(reduced(args[0]));
        lemma_pow_result_reduced(args[0], args[1]);
    } else if name == "log"@ {
        if args[0] == rat_int(1) {
        } else {
            lemma_log_search_reduced(args[0], args[1], 0, rat_int(1));
        }
    }
}

proof fn lemma_binary_value_reduced(op: BinaryOp, a: Rat, b: Rat)
    requires
        reduced(a),
        reduced(b),
        binary_value(op, a, b) is Ok,
    ensures
        reduced(binary_value(op, a, b)->Ok_0),
{
    lemma_ops_reduced(a, b);
    if op == BinaryOp::Rem {
        assert(a.den * b.den > 0) by (nonlinear_arith)
            requires
                a.den > 0,
                b.den > 0,
        ;
        lemma_normalize(trunc_rem(a.num * b.den, b.num * a.den), a.den * b.den);
    } else if op == BinaryOp::Pow {
        lemma_pow_result_reduced(a, b);
    }
}

/// With literals and the point in lowest terms, every exact value is in
/// lowest terms.
pub proof fn lemma_value_reduced(e: ExprV, v: Seq<char>, at: Rat)
    requires
        literals_reduced(e),
        reduced(at),
        eval_exact(e, v, at) is Ok,
    ensures
        reduced(eval_exact(e, v, at)->Ok_0),
    decreases e,
{
    match e {
        ExprV::Unary { op, arg } => {
            lemma_value_reduced(*arg, v, at);
            lemma_neg_reduced(eval_exact(*arg, v, at)->Ok_0);
        },
        ExprV::Binary { op, left, right } => {
            lemma_value_reduced(*left, v, at);
            lemma_value_reduced(*right, v, at);
            lemma_binary_value_reduced(
                op,
                eval_exact(*left, v, at)->Ok_0,
                eval_exact(*right, v, at)->Ok_0,
            );
        },
        ExprV::Call { name, arg_names, args } => {
            lemma_seq_values_reduced(args, v, at);
            lemma_call_result_reduced(name, eval_exact_seq(args, v, at)->Ok_0);
        },
        _ => {},
    }
}

pub proof fn lemma_seq_values_reduced(s: Seq<ExprV>, v: Seq<char>, at: Rat)
    requires
        all_literals_reduced(s),
        reduced(at),
        eval_exact_seq(s, v, at) is Ok,
    ensures
        all_reduced(eval_exact_seq(s, v, at)->Ok_0),
    decreases s,
{
    if s.len() > 0 {
        lemma_seq_values_reduced(s.drop_last(), v, at);
        lemma_value_reduced(s.last(), v, at);
        let vals = eval_exact_seq(s.drop_last(), v, at)->Ok_0;
        let x = eval_exact(s.last(), v, at)->Ok_0;
        assert forall|i: int| 0 <= i < vals.push(x).len() implies reduced(
            #[trigger] vals.push(x)[i],
        ) by {
            if i < vals.len() {
                assert(vals.push(x)[i] == vals[i]);
            }
        }
    }
}

// ---------------------------------------------------------------------------
// Values of lists of terms
// ---------------------------------------------------------------------------

/// The exact value of `e`, or zero where it has none.
pub open spec fn value_of(e: ExprV, v: Seq<char>, at: Rat) -> Rat {
    match eval_exact(e, v, at) {
        Ok(x) => x,
        Err(_) => rat_int(0),
    }
}

pub open spec fn values_of(s: Seq<ExprV>, v: Seq<char>, at: Rat) -> Seq<Rat> {
    s.map_values(|t: ExprV| value_of(t, v, at))
}

/// Every term has an exact value, with literals in lowest terms.
pub open spec fn terms_ok(s: Seq<ExprV>, v: Seq<char>, at: Rat) -> bool {
    forall|i: int|
        0 <= i < s.len() ==> #[trigger] literals_reduced(s[i]) && eval_exact(s[i], v, at) is Ok
}

proof fn lemma_terms_ok_reduced(s: Seq<ExprV>, v: Seq<char>, at: Rat)
    requires
        terms_ok(s, v, at),
        reduced(at),
    ensures
        all_reduced(values_of(s, v, at)),
{
    assert forall|i: int| 0 <= i < values_of(s, v, at).len() implies reduced(
        #[trigger] values_of(s, v, at)[i],
    ) by {
        assert(literals_reduced(s[i]));
        lemma_value_reduced(s[i], v, at);
    }
}

proof fn lemma_terms_ok_concat(a: Seq<ExprV>, b: Seq<ExprV>, v: Seq<char>, at: Rat)
    requires
        terms_ok(a, v, at),
        terms_ok(b, v, at),
    ensures
        terms_ok(a + b, v, at),
        values_of(a + b, v, at) == values_of(a, v, at) + values_of(b, v, at),
{
    assert forall|i: int| 0 <= i < (a + b).len() implies #[trigger] literals_reduced((a + b)[i])
        && eval_exact((a + b)[i], v, at) is Ok by {
        if i < a.len() {
            assert((a + b)[i] == a[i]);
            assert(literals_reduced(a[i]));
        } else {
            assert((a + b)[i] == b[i - a.len()]);
            assert(literals_reduced(b[i - a.len()]));
        }
    }
    assert(values_of(a + b, v, at) =~= values_of(a, v, at) + values_of(b, v, at));
}

proof fn lemma_terms_ok_single(t: ExprV, v: Seq<char>, at: Rat)
    requires
        literals_reduced(t),
        eval_exact(t, v, at) is Ok,
    ensures
        terms_ok(seq![t], v, at),
        values_of(seq![t], v, at) == seq![value_of(t, v, at)],
{
    assert(seq![t][0] == t);
    assert(values_of(seq![t], v, at) =~= seq![value_of(t, v, at)]);
}

/// Evaluating a list whose terms all have values gives those values.
pub proof fn lemma_eval_seq_values(s: Seq<ExprV>, v: Seq<char>, at: Rat)
    requires
        forall|i: int| 0 <= i < s.len() ==> #[trigger] eval_exact(s[i], v, at) is Ok,
    ensures
        eval_exact_seq(s, v, at) == Ok::<Seq<Rat>, crate::error::ErrorCode>(values_of(s, v, at)),
    decreases s.len(),
{
    if s.len() > 0 {
        let d = s.drop_last();
        assert forall|i: int| 0 <= i < d.len() implies #[trigger] eval_exact(d[i], v, at) is Ok by {
            assert(d[i] == s[i]);
        }
        lemma_eval_seq_values(d, v, at);
        assert(eval_exact(s[s.len() - 1], v, at) is Ok);
        assert(values_of(s, v, at) =~= values_of(d, v, at).push(value_of(s.last(), v, at)));
    } else {
        assert(values_of(s, v, at) =~= Seq::<Rat>::empty());
    }
}

/// A list with values has a value for every term.
pub proof fn lemma_eval_seq_terms(s: Seq<ExprV>, v: Seq<char>, at: Rat)
    requires
        eval_exact_seq(s, v, at) is Ok,
    ensures
        forall|i: int| 0 <= i < s.len() ==> #[trigger] eval_exact(s[i], v, at) is Ok,
        eval_exact_seq(s, v, at) == Ok::<Seq<Rat>, crate::error::ErrorCode>(values_of(s, v, at)),
    decreases s.len(),
{
    if s.len() > 0 {
        let d = s.drop_last();
        lemma_eval_seq_terms(d, v, at);
        assert forall|i: int| 0 <= i < s.len() implies #[trigger] eval_exact(s[i], v, at) is Ok by {
            if i < s.len() - 1 {
                assert(d[i] == s[i]);
            }
        }
        lemma_eval_seq_values(s, v, at);
    } else {
        assert(values_of(s, v, at) =~= Seq::<Rat>::empty());
    }
}

/// The value of a built number and of a negated term.
pub proof fn lemma_built_values(v: Seq<char>, at: Rat)
    ensures
        forall|q: Rat| #[trigger] eval_exact(number_node(q), v, at) == Ok::<Rat, crate::error::ErrorCode>(q),
        forall|e: ExprV|
            eval_exact(e, v, at) is Ok ==> #[trigger] eval_exact(negated(e), v, at) == Ok::<
                Rat,
                crate::error::ErrorCode,
            >(rat_neg(eval_exact(e, v, at)->Ok_0)),
{
    assert forall|q: Rat| #[trigger] eval_exact(number_node(q), v, at) == Ok::<
        Rat,
        crate::error::ErrorCode,
    >(q) by {
        if q.num < 0 {
            assert(eval_exact(ExprV::Number(rat_neg(q)), v, at) == Ok::<
                Rat,
                crate::error::ErrorCode,
            >(rat_neg(q)));
            assert(rat_neg(rat_neg(q)) == q);
        }
    }
    assert forall|e: ExprV| eval_exact(e, v, at) is Ok implies #[trigger] eval_exact(
        negated(e),
        v,
        at,
    ) == Ok::<Rat, crate::error::ErrorCode>(rat_neg(eval_exact(e, v, at)->Ok_0)) by {
        match e {
            ExprV::Number(q) => {},
            ExprV::Unary { op, arg } => {
                if op == UnaryOp::Neg {
                    assert(eval_exact(*arg, v, at) is Ok);
                }
            },
            _ => {},
        }
    }
}

// ---------------------------------------------------------------------------
// Sums
// ---------------------------------------------------------------------------

proof fn lemma_signed_value(e: ExprV, positive: bool, v: Seq<char>, at: Rat)
    requires
        literals_reduced(e),
        eval_exact(e, v, at) is Ok,
    ensures
        literals_reduced(signed(e, positive)),
        eval_exact(signed(e, positive), v, at) == Ok::<Rat, crate::error::ErrorCode>(
            signed_rat(value_of(e, v, at), positive),
        ),
{
    lemma_built_literals();
    lemma_built_values(v, at);
}

/// The flattened terms of a sum add up to its (signed) value.
proof fn lemma_sum_terms_value(e: ExprV, positive: bool, v: Seq<char>, at: Rat)
    requires
        literals_reduced(e),
        reduced(at),
        eval_exact(e, v, at) is Ok,
    ensures
        terms_ok(sum_terms(e, positive), v, at),
        crate::rational::rat_sum(values_of(sum_terms(e, positive), v, at)) == signed_rat(
            value_of(e, v, at),
            positive,
        ),
    decreases e,
{
    lemma_built_literals();
    lemma_built_values(v, at);
    lemma_value_reduced(e, v, at);
    let x = value_of(e, v, at);
    lemma_neg_reduced(x);
    match e {
        ExprV::Binary { op, left, right } => {
            if op == BinaryOp::Add || op == BinaryOp::Sub {
                let rp = if op == BinaryOp::Add {
                    positive
                } else {
                    !positive
                };
                lemma_sum_terms_value(*left, positive, v, at);
                lemma_sum_terms_value(*right, rp, v, at);
                let tl = sum_terms(*left, positive);
                let tr = sum_terms(*right, rp);
                assert(sum_terms(e, positive) == tl + tr);
                lemma_terms_ok_concat(tl, tr, v, at);
                lemma_terms_ok_reduced(tl, v, at);
                lemma_terms_ok_reduced(tr, v, at);
                crate::rational::lemma_sum_concat(values_of(tl, v, at), values_of(tr, v, at));
                let a = value_of(*left, v, at);
                let b = value_of(*right, v, at);
                lemma_value_reduced(*left, v, at);
                lemma_value_reduced(*right, v, at);
                lemma_neg_reduced(a);
                lemma_neg_reduced(b);
                crate::rational::lemma_neg_add(a, b);
                crate::rational::lemma_neg_add(a, rat_neg(b));
                crate::rational::lemma_sub_is_add_neg(a, b);
            } else {
                lemma_signed_value(e, positive, v, at);
                lemma_terms_ok_single(signed(e, positive), v, at);
                crate::rational::lemma_sum_single(signed_rat(x, positive));
            }
        },
        ExprV::Unary { op, arg } => {
            if op == UnaryOp::Neg {
                lemma_sum_terms_value(*arg, !positive, v, at);
            } else {
                lemma_signed_value(e, positive, v, at);
                lemma_terms_ok_single(signed(e, positive), v, at);
                crate::rational::lemma_sum_single(signed_rat(x, positive));
            }
        },
        ExprV::Number(q) => {
            let t = number_node(signed_rat(q, positive));
            lemma_terms_ok_single(t, v, at);
            crate::rational::lemma_sum_single(signed_rat(q, positive));
        },
        _ => {
            lemma_signed_value(e, positive, v, at);
            lemma_terms_ok_single(signed(e, positive), v, at);
            crate::rational::lemma_sum_single(signed_rat(x, positive));
        },
    }
}

proof fn lemma_find_from(s: Seq<ExprV>, x: ExprV, k: int)
    ensures
        find_from(s, x, k) == -1 || (k <= find_from(s, x, k) < s.len() && s[find_from(s, x, k)]
            == x),
    decreases s.len() - k,
{
    if k >= 0 && k < s.len() && s[k] != x {
        lemma_find_from(s, x, k + 1);
    }
}

proof fn lemma_terms_ok_drop_first(s: Seq<ExprV>, v: Seq<char>, at: Rat)
    requires
        terms_ok(s, v, at),
        s.len() > 0,
    ensures
        terms_ok(s.drop_first(), v, at),
        values_of(s, v, at) == seq![value_of(s[0], v, at)] + values_of(s.drop_first(), v, at),
{
    let r = s.drop_first();
    assert forall|i: int| 0 <= i < r.len() implies #[trigger] literals_reduced(r[i])
        && eval_exact(r[i], v, at) is Ok by {
        assert(r[i] == s[i + 1]);
        assert(literals_reduced(s[i + 1]));
    }
    assert(values_of(s, v, at) =~= seq![value_of(s[0], v, at)] + values_of(r, v, at));
}

proof fn lemma_terms_ok_remove(s: Seq<ExprV>, j: int, v: Seq<char>, at: Rat)
    requires
        terms_ok(s, v, at),
        0 <= j < s.len(),
    ensures
        terms_ok(s.remove(j), v, at),
        values_of(s.remove(j), v, at) == values_of(s, v, at).remove(j),
{
    let r = s.remove(j);
    assert forall|i: int| 0 <= i < r.len() implies #[trigger] literals_reduced(r[i])
        && eval_exact(r[i], v, at) is Ok by {
        if i < j {
            assert(r[i] == s[i]);
            assert(literals_reduced(s[i]));
        } else {
            assert(r[i] == s[i + 1]);
            assert(literals_reduced(s[i + 1]));
        }
    }
    assert(values_of(r, v, at) =~= values_of(s, v, at).remove(j));
}

/// Cancelling opposite terms keeps the sum.
proof fn lemma_cancel_value(s: Seq<ExprV>, v: Seq<char>, at: Rat)
    requires
        terms_ok(s, v, at),
        reduced(at),
    ensures
        terms_ok(cancel(s), v, at),
        crate::rational::rat_sum(values_of(cancel(s), v, at)) == crate::rational::rat_sum(
            values_of(s, v, at),
        ),
    decreases s.len(),
{
    if s.len() == 0 {
        assert(cancel(s) == s);
    } else {
        lemma_built_values(v, at);
        let rest = s.drop_first();
        lemma_terms_ok_drop_first(s, v, at);
        lemma_terms_ok_reduced(s, v, at);
        lemma_terms_ok_reduced(rest, v, at);
        let x0 = value_of(s[0], v, at);
        assert(literals_reduced(s[0]));
        lemma_value_reduced(s[0], v, at);
        assert(reduced(x0));
        let sr = values_of(rest, v, at);
        assert(all_reduced(seq![x0])) by {
            assert(seq![x0][0] == x0);
        }
        crate::rational::lemma_sum_concat(seq![x0], sr);
        crate::rational::lemma_sum_single(x0);
        crate::rational::lemma_sum_reduced(sr);
        let j = find_from(rest, negated(s[0]), 0);
        lemma_find_from(rest, negated(s[0]), 0);
        if 0 <= j < rest.len() {
            let smaller = rest.remove(j);
            lemma_terms_ok_remove(rest, j, v, at);
            lemma_cancel_value(smaller, v, at);
            // The removed term is the negation of the first.
            assert(eval_exact(rest[j], v, at) == Ok::<Rat, crate::error::ErrorCode>(rat_neg(x0)));
            assert(sr[j] == rat_neg(x0));
            crate::rational::lemma_sum_remove(sr, j);
            let m = crate::rational::rat_sum(sr.remove(j));
            assert(all_reduced(sr.remove(j))) by {
                assert forall|i: int| 0 <= i < sr.remove(j).len() implies reduced(
                    #[trigger] sr.remove(j)[i],
                ) by {
                    if i < j {
                        assert(sr.remove(j)[i] == sr[i]);
                    } else {
                        assert(sr.remove(j)[i] == sr[i + 1]);
                    }
                }
            }
            crate::rational::lemma_sum_reduced(sr.remove(j));
            lemma_neg_reduced(x0);
            crate::rational::lemma_add_comm(m, rat_neg(x0));
            crate::rational::lemma_add_assoc(x0, rat_neg(x0), m);
            crate::rational::lemma_add_neg(x0);
            crate::rational::lemma_add_zero(m);
        } else {
            lemma_cancel_value(rest, v, at);
            let c = cancel(rest);
            assert(cancel(s) == seq![s[0]] + c);
            lemma_terms_ok_single(s[0], v, at);
            lemma_terms_ok_concat(seq![s[0]], c, v, at);
            lemma_terms_ok_reduced(c, v, at);
            crate::rational::lemma_sum_concat(seq![x0], values_of(c, v, at));
        }
    }
}

proof fn lemma_zero_reduced(q: Rat)
    requires
        reduced(q),
        q.num == 0,
    ensures
        q == rat_int(0),
{
    let d = q.den as nat;
    assert(abs(q.num) == 0);
    assert(gcd(0, d) == gcd(d, 0nat % d));
    assert(0nat % d == 0);
    assert(gcd(d, 0) == d);
}

proof fn lemma_constant_value(t: ExprV, v: Seq<char>, at: Rat)
    requires
        constant_value(t) is Some,
        eval_exact(t, v, at) is Ok,
    ensures
        value_of(t, v, at) == constant_value(t)->Some_0,
{
    match t {
        ExprV::Unary { op, arg } => {
            assert(eval_exact(*arg, v, at) is Ok);
        },
        _ => {},
    }
}

proof fn lemma_terms_ok_drop_last(s: Seq<ExprV>, v: Seq<char>, at: Rat)
    requires
        terms_ok(s, v, at),
        s.len() > 0,
    ensures
        terms_ok(s.drop_last(), v, at),
        literals_reduced(s.last()),
        eval_exact(s.last(), v, at) is Ok,
        values_of(s, v, at).drop_last() == values_of(s.drop_last(), v, at),
        values_of(s, v, at).last() == value_of(s.last(), v, at),
        crate::rational::rat_sum(values_of(s, v, at)) == rat_add(
            crate::rational::rat_sum(values_of(s.drop_last(), v, at)),
            value_of(s.last(), v, at),
        ),
{
    let d = s.drop_last();
    assert forall|i: int| 0 <= i < d.len() implies #[trigger] literals_reduced(d[i])
        && eval_exact(d[i], v, at) is Ok by {
        assert(d[i] == s[i]);
        assert(literals_reduced(s[i]));
    }
    assert(literals_reduced(s[s.len() - 1]));
    assert(values_of(s, v, at).drop_last() =~= values_of(d, v, at));
}

/// Gathering the constants of a sum: the remaining terms plus the constant
/// give the same sum.
proof fn lemma_split_constants_value(s: Seq<ExprV>, v: Seq<char>, at: Rat)
    requires
        terms_ok(s, v, at),
        reduced(at),
    ensures
        terms_ok(split_constants(s).0, v, at),
        reduced(split_constants(s).1),
        crate::rational::rat_sum(values_of(s, v, at)) == rat_add(
            crate::rational::rat_sum(values_of(split_constants(s).0, v, at)),
            split_constants(s).1,
        ),
        split_constants(s).2 is None ==> split_constants(s).1 == rat_int(0),
        split_constants(s).2 matches Some(i) ==> 0 <= i <= split_constants(s).0.len(),
    decreases s.len(),
{
    lemma_int_reduced(0);
    if s.len() == 0 {
        assert(values_of(s, v, at) =~= Seq::<Rat>::empty());
        assert(values_of(split_constants(s).0, v, at) =~= Seq::<Rat>::empty());
        crate::rational::lemma_add_zero(rat_int(0));
    } else {
        let d = s.drop_last();
        let t = s.last();
        lemma_terms_ok_drop_last(s, v, at);
        lemma_split_constants_value(d, v, at);
        let (r0, c0, i0) = split_constants(d);
        let s0 = crate::rational::rat_sum(values_of(r0, v, at));
        lemma_terms_ok_reduced(r0, v, at);
        crate::rational::lemma_sum_reduced(values_of(r0, v, at));
        lemma_value_reduced(t, v, at);
        let xt = value_of(t, v, at);
        match constant_value(t) {
            Some(q) => {
                lemma_constant_value(t, v, at);
                lemma_ops_reduced(c0, q);
                crate::rational::lemma_add_assoc(s0, c0, q);
            },
            None => {
                lemma_terms_ok_single(t, v, at);
                lemma_terms_ok_concat(r0, seq![t], v, at);
                assert(r0.push(t) == r0 + seq![t]);
                lemma_terms_ok_drop_last(r0.push(t), v, at);
                assert(r0.push(t).drop_last() == r0);
                crate::rational::lemma_add_assoc(s0, c0, xt);
                crate::rational::lemma_add_assoc(s0, xt, c0);
                crate::rational::lemma_add_comm(c0, xt);
            },
        }
    }
}

/// Folding the constants into one literal keeps the sum.
proof fn lemma_fold_constants_value(s: Seq<ExprV>, v: Seq<char>, at: Rat)
    requires
        terms_ok(s, v, at),
        reduced(at),
    ensures
        terms_ok(fold_constants(s), v, at),
        crate::rational::rat_sum(values_of(fold_constants(s), v, at))
            == crate::rational::rat_sum(values_of(s, v, at)),
{
    lemma_built_literals();
    lemma_built_values(v, at);
    lemma_split_constants_value(s, v, at);
    let (rest, c, idx) = split_constants(s);
    let sr = values_of(rest, v, at);
    lemma_terms_ok_reduced(rest, v, at);
    crate::rational::lemma_sum_reduced(sr);
    crate::rational::lemma_add_zero(crate::rational::rat_sum(sr));
    match idx {
        Some(i) => {
            if c.num != 0 {
                let x = number_node(c);
                let out = rest.insert(i, x);
                assert(literals_reduced(x));
                assert forall|k: int| 0 <= k < out.len() implies #[trigger] literals_reduced(out[k])
                    && eval_exact(out[k], v, at) is Ok by {
                    if k < i {
                        assert(out[k] == rest[k]);
                        assert(literals_reduced(rest[k]));
                    } else if k == i {
                        assert(out[k] == x);
                    } else {
                        assert(out[k] == rest[k - 1]);
                        assert(literals_reduced(rest[k - 1]));
                    }
                }
                assert(values_of(out, v, at) =~= sr.insert(i, c));
                crate::rational::lemma_sum_insert(sr, i, c);
                assert(fold_constants(s) == out);
            } else {
                lemma_zero_reduced(c);
                assert(fold_constants(s) == rest);
            }
        },
        None => {
            assert(fold_constants(s) == rest);
        },
    }
}

/// The rebuilt sum evaluates to the sum of its terms.
proof fn lemma_build_sum_value(s: Seq<ExprV>, v: Seq<char>, at: Rat)
    requires
        terms_ok(s, v, at),
        reduced(at),
    ensures
        literals_reduced(build_sum(s)),
        eval_exact(build_sum(s), v, at) == Ok::<Rat, crate::error::ErrorCode>(
            crate::rational::rat_sum(values_of(s, v, at)),
        ),
    decreases s.len(),
{
    lemma_built_literals();
    lemma_built_values(v, at);
    lemma_terms_ok_reduced(s, v, at);
    if s.len() == 0 {
        assert(values_of(s, v, at) =~= Seq::<Rat>::empty());
    } else if s.len() == 1 {
        assert(literals_reduced(s[0]));
        assert(values_of(s, v, at) =~= seq![value_of(s[0], v, at)]);
        assert(reduced(values_of(s, v, at)[0]));
        crate::rational::lemma_sum_single(value_of(s[0], v, at));
    } else {
        let d = s.drop_last();
        let t = s.last();
        lemma_terms_ok_drop_last(s, v, at);
        lemma_build_sum_value(d, v, at);
        let acc = crate::rational::rat_sum(values_of(d, v, at));
        let xt = value_of(t, v, at);
        lemma_value_reduced(t, v, at);
        match split_negative(t) {
            Some(p) => {
                match t {
                    ExprV::Unary { op, arg } => {
                        assert(eval_exact(*arg, v, at) is Ok);
                        assert(value_of(p, v, at) == rat_neg(xt));
                        assert(literals_reduced(p));
                    },
                    ExprV::Binary { op, left, right } => {
                        assert(literals_reduced(*left) && literals_reduced(*right));
                        match *left {
                            ExprV::Unary { op: inner_op, arg } => {
                                assert(literals_reduced(*arg));
                                assert(literals_reduced(p));
                                assert(eval_exact(*left, v, at) is Ok);
                                assert(eval_exact(*arg, v, at) is Ok);
                                let a = value_of(*arg, v, at);
                                let b = value_of(*right, v, at);
                                lemma_value_reduced(*arg, v, at);
                                lemma_value_reduced(*right, v, at);
                                crate::rational::lemma_mul_neg(a, b);
                                assert(value_of(p, v, at) == rat_mul(a, b));
                                assert(xt == rat_mul(rat_neg(a), b));
                            },
                            _ => {},
                        }
                    },
                    _ => {},
                }
                assert(value_of(p, v, at) == rat_neg(xt));
                crate::rational::lemma_sub_is_add_neg(acc, rat_neg(xt));
            },
            None => {},
        }
    }
}

// ---------------------------------------------------------------------------
// Products
// ---------------------------------------------------------------------------

proof fn lemma_signed_mul(a: Rat, b: Rat, s: bool, t: bool)
    requires
        a.den > 0,
        b.den > 0,
    ensures
        rat_mul(signed_rat(a, s), signed_rat(b, t)) == signed_rat(rat_mul(a, b), s == t),
{
    crate::rational::lemma_mul_neg(a, b);
    crate::rational::lemma_mul_neg(rat_neg(a), b);
    crate::rational::lemma_mul_neg(a, rat_neg(b));
}

/// Flattening a product: the coefficient times the factors is the product
/// of what came before and the value of `e` with the entry sign.
proof fn lemma_product_parts_value(
    e: ExprV,
    positive: bool,
    c: Rat,
    fs: Seq<ExprV>,
    v: Seq<char>,
    at: Rat,
)
    requires
        literals_reduced(e),
        reduced(at),
        eval_exact(e, v, at) is Ok,
        reduced(c),
        terms_ok(fs, v, at),
    ensures
        reduced(product_parts(e, positive, c, fs).0),
        terms_ok(product_parts(e, positive, c, fs).1, v, at),
        rat_mul(
            product_parts(e, positive, c, fs).0,
            crate::rational::rat_product(values_of(product_parts(e, positive, c, fs).1, v, at)),
        ) == rat_mul(
            rat_mul(c, crate::rational::rat_product(values_of(fs, v, at))),
            signed_rat(value_of(e, v, at), positive),
        ),
    decreases e,
{
    lemma_built_literals();
    lemma_built_values(v, at);
    lemma_value_reduced(e, v, at);
    lemma_terms_ok_reduced(fs, v, at);
    crate::rational::lemma_product_reduced(values_of(fs, v, at));
    let p = crate::rational::rat_product(values_of(fs, v, at));
    let x = value_of(e, v, at);
    lemma_neg_reduced(x);
    lemma_ops_reduced(c, p);
    match e {
        ExprV::Binary { op, left, right } => {
            if op == BinaryOp::Mul {
                lemma_product_parts_value(*left, positive, c, fs, v, at);
                let (c1, f1) = product_parts(*left, positive, c, fs);
                lemma_product_parts_value(*right, true, c1, f1, v, at);
                let a = value_of(*left, v, at);
                let b = value_of(*right, v, at);
                lemma_value_reduced(*left, v, at);
                lemma_value_reduced(*right, v, at);
                lemma_neg_reduced(a);
                lemma_neg_reduced(b);
                lemma_signed_mul(a, b, positive, true);
                crate::rational::lemma_mul_assoc(rat_mul(c, p), signed_rat(a, positive), b);
            } else {
                self::lemma_push_factor(e, positive, c, fs, v, at);
            }
        },
        ExprV::Unary { op, arg } => {
            if op == UnaryOp::Neg {
                lemma_product_parts_value(*arg, !positive, c, fs, v, at);
            } else {
                self::lemma_push_factor(e, positive, c, fs, v, at);
            }
        },
        ExprV::Number(q) => {
            lemma_neg_reduced(q);
            let sq = signed_rat(q, positive);
            crate::rational::lemma_mul_assoc(c, sq, p);
            crate::rational::lemma_mul_comm(sq, p);
            crate::rational::lemma_mul_assoc(c, p, sq);
            lemma_ops_reduced(c, sq);
        },
        _ => {
            self::lemma_push_factor(e, positive, c, fs, v, at);
        },
    }
}

/// A factor that is not flattened further is pushed with its sign.
proof fn lemma_push_factor(e: ExprV, positive: bool, c: Rat, fs: Seq<ExprV>, v: Seq<char>, at: Rat)
    requires
        literals_reduced(e),
        reduced(at),
        eval_exact(e, v, at) is Ok,
        reduced(c),
        terms_ok(fs, v, at),
    ensures
        terms_ok(fs.push(signed(e, positive)), v, at),
        rat_mul(c, crate::rational::rat_product(values_of(fs.push(signed(e, positive)), v, at)))
            == rat_mul(
            rat_mul(c, crate::rational::rat_product(values_of(fs, v, at))),
            signed_rat(value_of(e, v, at), positive),
        ),
{
    lemma_signed_value(e, positive, v, at);
    let t = signed(e, positive);
    lemma_terms_ok_single(t, v, at);
    lemma_terms_ok_concat(fs, seq![t], v, at);
    assert(fs.push(t) == fs + seq![t]);
    lemma_terms_ok_drop_last(fs.push(t), v, at);
    assert(fs.push(t).drop_last() == fs);
    let vals = values_of(fs.push(t), v, at);
    assert(vals.drop_last() == values_of(fs, v, at));
    lemma_terms_ok_reduced(fs, v, at);
    crate::rational::lemma_product_reduced(values_of(fs, v, at));
    lemma_value_reduced(e, v, at);
    lemma_neg_reduced(value_of(e, v, at));
    crate::rational::lemma_mul_assoc(
        c,
        crate::rational::rat_product(values_of(fs, v, at)),
        signed_rat(value_of(e, v, at), positive),
    );
}

/// The rebuilt product evaluates to the product of its factors.
proof fn lemma_build_product_value(s: Seq<ExprV>, v: Seq<char>, at: Rat)
    requires
        terms_ok(s, v, at),
        reduced(at),
    ensures
        literals_reduced(build_product(s)),
        eval_exact(build_product(s), v, at) == Ok::<Rat, crate::error::ErrorCode>(
            crate::rational::rat_product(values_of(s, v, at)),
        ),
    decreases s.len(),
{
    lemma_built_literals();
    lemma_terms_ok_reduced(s, v, at);
    if s.len() == 0 {
        assert(values_of(s, v, at) =~= Seq::<Rat>::empty());
    } else if s.len() == 1 {
        assert(literals_reduced(s[0]));
        assert(values_of(s, v, at) =~= seq![value_of(s[0], v, at)]);
        assert(reduced(values_of(s, v, at)[0]));
        crate::rational::lemma_product_single(value_of(s[0], v, at));
    } else {
        let d = s.drop_last();
        lemma_terms_ok_drop_last(s, v, at);
        lemma_build_product_value(d, v, at);
        let vals = values_of(s, v, at);
        assert(vals.drop_last() == values_of(d, v, at));
    }
}

proof fn lemma_rebuild_product_value(c: Rat, fs: Seq<ExprV>, v: Seq<char>, at: Rat)
    requires
        reduced(c),
        terms_ok(fs, v, at),
        reduced(at),
    ensures
        literals_reduced(rebuild_product(c, fs)),
        eval_exact(rebuild_product(c, fs), v, at) == Ok::<Rat, crate::error::ErrorCode>(
            rat_mul(c, crate::rational::rat_product(values_of(fs, v, at))),
        ),
{
    lemma_built_literals();
    lemma_built_values(v, at);
    lemma_terms_ok_reduced(fs, v, at);
    let p = crate::rational::rat_product(values_of(fs, v, at));
    crate::rational::lemma_product_reduced(values_of(fs, v, at));
    if c.num == 0 {
        lemma_zero_reduced(c);
        crate::rational::lemma_mul_zero(p);
    } else if c == rat_int(1) {
        lemma_build_product_value(fs, v, at);
        crate::rational::lemma_mul_one(p);
    } else {
        let x = number_node(c);
        lemma_terms_ok_single(x, v, at);
        lemma_terms_ok_concat(seq![x], fs, v, at);
        lemma_build_product_value(seq![x] + fs, v, at);
        assert(all_reduced(seq![c])) by {
            assert(seq![c][0] == c);
        }
        crate::rational::lemma_product_concat(seq![c], values_of(fs, v, at));
        crate::rational::lemma_product_single(c);
    }
}

// ---------------------------------------------------------------------------
// The law
// ---------------------------------------------------------------------------

proof fn lemma_simp_binary_value(op: BinaryOp, l: ExprV, r: ExprV, v: Seq<char>, at: Rat)
    requires
        literals_reduced(l),
        literals_reduced(r),
        reduced(at),
        eval_exact(binary_node(op, l, r), v, at) is Ok,
    ensures
        literals_reduced(simp_binary(op, l, r)),
        eval_exact(simp_binary(op, l, r), v, at) == eval_exact(binary_node(op, l, r), v, at),
{
    lemma_built_literals();
    lemma_built_values(v, at);
    let e = binary_node(op, l, r);
    lemma_value_reduced(l, v, at);
    lemma_value_reduced(r, v, at);
    lemma_value_reduced(e, v, at);
    let a = value_of(l, v, at);
    let b = value_of(r, v, at);
    let x = value_of(e, v, at);
    if op == BinaryOp::Add || op == BinaryOp::Sub {
        let terms = sum_terms(e, true);
        lemma_sum_terms_value(e, true, v, at);
        lemma_cancel_value(terms, v, at);
        lemma_fold_constants_value(cancel(terms), v, at);
        lemma_build_sum_value(fold_constants(cancel(terms)), v, at);
    } else if op == BinaryOp::Mul {
        let empty = Seq::<ExprV>::empty();
        assert(values_of(empty, v, at) =~= Seq::<Rat>::empty());
        lemma_int_reduced(1);
        lemma_product_parts_value(e, true, rat_int(1), empty, v, at);
        let (c, fs) = product_parts(e, true, rat_int(1), empty);
        lemma_rebuild_product_value(c, fs, v, at);
        crate::rational::lemma_mul_one(rat_int(1));
        crate::rational::lemma_mul_one(x);
    } else if op == BinaryOp::Div {
        if is_one_node(r) {
            crate::rational::lemma_div_one(a);
        } else if is_zero_node(l) && is_nonzero_literal(r) {
            lemma_zero_reduced(a);
            crate::rational::lemma_div_zero(b);
        } else if l == r && is_nonzero_literal(l) {
            crate::rational::lemma_div_self(a);
        } else {
            lemma_ops_reduced(a, b);
        }
    } else if op == BinaryOp::Rem {
        match (l, r) {
            (ExprV::Number(p), ExprV::Number(q)) => {
                if q.num != 0 {
                    lemma_binary_value_reduced(op, p, q);
                }
            },
            _ => {},
        }
    } else if op == BinaryOp::Pow {
        if r matches ExprV::Number(q) && q == rat_int(1) {
            crate::rational::lemma_pow_one(a);
        } else if r matches ExprV::Number(q) && q.num == 0 {
            crate::rational::lemma_pow_zero(a);
        } else if is_one_node(l) {
            crate::rational::lemma_one_pow(b.num);
        } else {
            match (l, r) {
                (ExprV::Number(p), ExprV::Number(q)) => {
                    if pow_result(p, q) is Ok {
                        lemma_pow_result_reduced(p, q);
                    }
                },
                _ => {},
            }
        }
    }
}

proof fn lemma_simp_call_value(
    name: Seq<char>,
    names: Seq<Option<Seq<char>>>,
    args: Seq<ExprV>,
    v: Seq<char>,
    at: Rat,
)
    requires
        all_literals_reduced(args),
        reduced(at),
        eval_exact(ExprV::Call { name, arg_names: names, args }, v, at) is Ok,
    ensures
        literals_reduced(simp_call(name, names, args)),
        eval_exact(simp_call(name, names, args), v, at) == eval_exact(
            ExprV::Call { name, arg_names: names, args },
            v,
            at,
        ),
{
    lemma_built_literals();
    lemma_built_values(v, at);
    let e = ExprV::Call { name, arg_names: names, args };
    if all_literal_args(names, args) {
        lemma_eval_seq_terms(args, v, at);
        assert(literal_values(args) =~= values_of(args, v, at));
        lemma_value_reduced(e, v, at);
    }
}

/// Simplification keeps the exact value: where an expression whose literals
/// are in lowest terms has an exact value at a point in lowest terms, its
/// simplified form has the same exact value there.
pub proof fn lemma_simp_keeps_value(e: ExprV, v: Seq<char>, at: Rat)
    requires
        literals_reduced(e),
        reduced(at),
        eval_exact(e, v, at) is Ok,
    ensures
        eval_exact(simp(e), v, at) == eval_exact(e, v, at),
        literals_reduced(simp(e)),
    decreases e,
{
    lemma_built_literals();
    lemma_built_values(v, at);
    match e {
        ExprV::Unary { op, arg } => {
            lemma_simp_keeps_value(*arg, v, at);
        },
        ExprV::Binary { op, left, right } => {
            lemma_simp_keeps_value(*left, v, at);
            lemma_simp_keeps_value(*right, v, at);
            lemma_simp_binary_value(op, simp(*left), simp(*right), v, at);
        },
        ExprV::Call { name, arg_names, args } => {
            lemma_simp_seq_keeps_values(args, v, at);
            lemma_simp_call_value(name, arg_names, simp_seq(args), v, at);
        },
        _ => {},
    }
}

/// The list form of [`lemma_simp_keeps_value`].
pub proof fn lemma_simp_seq_keeps_values(s: Seq<ExprV>, v: Seq<char>, at: Rat)
    requires
        all_literals_reduced(s),
        reduced(at),
        eval_exact_seq(s, v, at) is Ok,
    ensures
        eval_exact_seq(simp_seq(s), v, at) == eval_exact_seq(s, v, at),
        all_literals_reduced(simp_seq(s)),
    decreases s,
{
    if s.len() > 0 {
        lemma_simp_seq_keeps_values(s.drop_last(), v, at);
        lemma_simp_keeps_value(s.last(), v, at);
        assert(simp_seq(s).drop_last() =~= simp_seq(s.drop_last()));
    }
}

} // verus!
