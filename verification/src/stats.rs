//! Exact descriptive statistics over rational observations.
//!
//! Every value is an exact rational, so means, variances, order statistics
//! and modes are computed without rounding. Inputs are never mutated; empty or
//! too-short inputs are rejected with `InsufficientObservations`.
use vstd::prelude::*;
use crate::error::{EngineError, ErrorCode, NumericMode};
use crate::evaluate::nums_view;
use crate::number::{
    big_add, big_div, big_floor, big_lt, big_mul, big_sub, is_square, normalize, rat_add,
    rat_div, rat_floor, rat_int, rat_le, rat_lt, rat_mul, rat_sub, square_root, Number, Rat,
};
use crate::rational::all_reduced;
use crate::expr::name_view;
use crate::params::{index_path, indexed_path};
use crate::text::str_eq;
use vstd::string::*;

verus! {

// ---------------------------------------------------------------------------
// Sums and moments
// ---------------------------------------------------------------------------

/// The exact sum.
pub open spec fn rsum(s: Seq<Rat>) -> Rat
    decreases s.len(),
{
    if s.len() == 0 {
        rat_int(0)
    } else {
        rat_add(rsum(s.drop_last()), s.last())
    }
}

/// The arithmetic mean of a non-empty sequence.
pub open spec fn mean_of(s: Seq<Rat>) -> Rat {
    rat_div(rsum(s), rat_int(s.len() as int))
}

/// The sum of squared deviations from `m`.
pub open spec fn squares_about(s: Seq<Rat>, m: Rat) -> Rat
    decreases s.len(),
{
    if s.len() == 0 {
        rat_int(0)
    } else {
        let d = rat_sub(s.last(), m);
        rat_add(squares_about(s.drop_last(), m), rat_mul(d, d))
    }
}

/// The variance with `ddof` delta degrees of freedom (`len > ddof`).
pub open spec fn variance_of(s: Seq<Rat>, ddof: nat) -> Rat {
    rat_div(squares_about(s, mean_of(s)), rat_int(s.len() - ddof))
}

/// The sum of the products of paired deviations over the first `k` pairs.
pub open spec fn products_about(xs: Seq<Rat>, ys: Seq<Rat>, mx: Rat, my: Rat, k: nat) -> Rat
    decreases k,
{
    if k == 0 {
        rat_int(0)
    } else {
        let k1 = (k - 1) as nat;
        rat_add(
            products_about(xs, ys, mx, my, k1),
            rat_mul(rat_sub(xs[k1 as int], mx), rat_sub(ys[k1 as int], my)),
        )
    }
}

pub open spec fn min_len(a: nat, b: nat) -> nat {
    if a < b {
        a
    } else {
        b
    }
}

/// The covariance over the common pairs, with `ddof` delta degrees of freedom.
pub open spec fn covariance_of(xs: Seq<Rat>, ys: Seq<Rat>, ddof: nat) -> Rat {
    rat_div(
        products_about(xs, ys, mean_of(xs), mean_of(ys), min_len(xs.len(), ys.len())),
        rat_int(xs.len() - ddof),
    )
}

fn insufficient(message: &'static str) -> (r: EngineError)
    ensures
        r.code == ErrorCode::InsufficientObservations,
        r.message == message,
        r.path is None,
{
    EngineError::new(ErrorCode::InsufficientObservations, message)
}

fn sum_numbers(values: &Vec<Number>) -> (r: Number)
    ensures
        r@ == rsum(nums_view(values@)),
{
    let ghost s = nums_view(values@);
    let mut total = Number::zero();
    let mut i: usize = 0;
    assert(s.subrange(0, 0) =~= Seq::<Rat>::empty());
    while i < values.len()
        invariant
            i <= values.len(),
            s == nums_view(values@),
            total@ == rsum(s.subrange(0, i as int)),
        decreases values.len() - i,
    {
        assert(s.subrange(0, i as int + 1).drop_last() =~= s.subrange(0, i as int));
        total = big_add(&total, &values[i]);
        i = i + 1;
    }
    assert(s.subrange(0, values.len() as int) =~= s);
    total
}

/// The exact arithmetic mean.
pub fn mean_exact(values: &Vec<Number>) -> (r: Result<Number, EngineError>)
    ensures
        values.len() == 0 <==> r is Err,
        r matches Err(e) ==> e.code == ErrorCode::InsufficientObservations,
        r matches Ok(m) ==> m@ == mean_of(nums_view(values@)),
{
    if values.len() == 0 {
        return Err(insufficient("mean requires at least one observation"));
    }
    let total = sum_numbers(values);
    let n = Number::from_u64(values.len() as u64);
    Ok(big_div(&total, &n))
}

fn squares_about_mean(values: &Vec<Number>, mean: &Number) -> (r: Number)
    ensures
        r@ == squares_about(nums_view(values@), mean@),
{
    let ghost s = nums_view(values@);
    let mut total = Number::zero();
    let mut i: usize = 0;
    assert(s.subrange(0, 0) =~= Seq::<Rat>::empty());
    while i < values.len()
        invariant
            i <= values.len(),
            s == nums_view(values@),
            total@ == squares_about(s.subrange(0, i as int), mean@),
        decreases values.len() - i,
    {
        assert(s.subrange(0, i as int + 1).drop_last() =~= s.subrange(0, i as int));
        let delta = big_sub(&values[i], mean);
        let square = big_mul(&delta, &delta);
        total = big_add(&total, &square);
        i = i + 1;
    }
    assert(s.subrange(0, values.len() as int) =~= s);
    total
}

/// The exact variance with `ddof` delta degrees of freedom.
pub fn variance_exact(values: &Vec<Number>, ddof: u64) -> (r: Result<Number, EngineError>)
    ensures
        r is Err <==> values.len() <= ddof || values.len() == 0,
        r matches Err(e) ==> e.code == ErrorCode::InsufficientObservations,
        r matches Ok(v) ==> v@ == variance_of(nums_view(values@), ddof as nat),
{
    if values.len() == 0 {
        return Err(insufficient("variance requires at least one observation"));
    }
    if values.len() as u64 <= ddof {
        return Err(insufficient("variance requires more observations than ddof"));
    }
    let mean = mean_exact(values)?;
    let squares = squares_about_mean(values, &mean);
    let denominator = Number::from_u64(values.len() as u64 - ddof);
    Ok(big_div(&squares, &denominator))
}

/// The exact covariance over the common pairs of `xs` and `ys`.
pub fn covariance_exact(xs: &Vec<Number>, ys: &Vec<Number>, ddof: u64) -> (r: Result<
    Number,
    EngineError,
>)
    ensures
        r is Err <==> xs.len() == 0 || xs.len() <= ddof || ys.len() == 0,
        r matches Err(e) ==> e.code == ErrorCode::InsufficientObservations,
        r matches Ok(v) ==> v@ == covariance_of(nums_view(xs@), nums_view(ys@), ddof as nat),
{
    if xs.len() == 0 {
        return Err(insufficient("covariance requires at least one observation"));
    }
    if xs.len() as u64 <= ddof {
        return Err(insufficient("covariance requires more observations than ddof"));
    }
    let mean_x = mean_exact(xs)?;
    let mean_y = mean_exact(ys)?;
    let ghost sx = nums_view(xs@);
    let ghost sy = nums_view(ys@);
    let pairs = if xs.len() < ys.len() {
        xs.len()
    } else {
        ys.len()
    };
    let mut total = Number::zero();
    let mut i: usize = 0;
    while i < pairs
        invariant
            i <= pairs,
            pairs == min_len(xs.len() as nat, ys.len() as nat),
            sx == nums_view(xs@),
            sy == nums_view(ys@),
            total@ == products_about(sx, sy, mean_x@, mean_y@, i as nat),
        decreases pairs - i,
    {
        let dx = big_sub(&xs[i], &mean_x);
        let dy = big_sub(&ys[i], &mean_y);
        let product = big_mul(&dx, &dy);
        total = big_add(&total, &product);
        i = i + 1;
    }
    let denominator = Number::from_u64(xs.len() as u64 - ddof);
    Ok(big_div(&total, &denominator))
}

/// The exact square root of a rational, when it is one.
pub fn rational_sqrt_exact(value: &Number) -> (r: Option<Number>)
    ensures
        r is Some <==> (value@.num >= 0 && is_square(value@.num) && is_square(value@.den)),
        r matches Some(x) ==> x@ == normalize(
            square_root(value@.num) as int,
            square_root(value@.den) as int,
        ),
{
    if value.is_negative() {
        return None;
    }
    value.sqrt_exact()
}

// ---------------------------------------------------------------------------
// Order statistics
// ---------------------------------------------------------------------------

/// The first smallest (or largest) observation of a non-empty sequence.
pub open spec fn extreme_of(s: Seq<Rat>, minimum: bool) -> Rat
    decreases s.len(),
{
    if s.len() <= 1 {
        s[0]
    } else {
        let best = extreme_of(s.drop_last(), minimum);
        let x = s.last();
        if (minimum && rat_lt(x, best)) || (!minimum && rat_lt(best, x)) {
            x
        } else {
            best
        }
    }
}

/// The smallest (`minimum`) or largest observation.
pub fn extreme_number(values: &Vec<Number>, minimum: bool) -> (r: Result<Number, EngineError>)
    ensures
        values.len() == 0 <==> r is Err,
        r matches Err(e) ==> e.code == ErrorCode::InsufficientObservations,
        r matches Ok(x) ==> x@ == extreme_of(nums_view(values@), minimum),
{
    if values.len() == 0 {
        return Err(insufficient("minimum and maximum require at least one observation"));
    }
    let ghost s = nums_view(values@);
    let mut best = values[0].copy();
    let mut i: usize = 1;
    assert(s.subrange(0, 1).len() == 1);
    while i < values.len()
        invariant
            1 <= i <= values.len(),
            s == nums_view(values@),
            best@ == extreme_of(s.subrange(0, i as int), minimum),
        decreases values.len() - i,
    {
        assert(s.subrange(0, i as int + 1).drop_last() =~= s.subrange(0, i as int));
        if (minimum && big_lt(&values[i], &best)) || (!minimum && big_lt(&best, &values[i])) {
            best = values[i].copy();
        }
        i = i + 1;
    }
    assert(s.subrange(0, values.len() as int) =~= s);
    Ok(best)
}

/// `x` inserted into `t` after every element not above it.
pub open spec fn insert_sorted(t: Seq<Rat>, x: Rat) -> Seq<Rat>
    decreases t.len(),
{
    if t.len() == 0 {
        seq![x]
    } else if rat_le(t.last(), x) {
        t.push(x)
    } else {
        insert_sorted(t.drop_last(), x).push(t.last())
    }
}

/// The observations in ascending order (insertion sort).
pub open spec fn sorted_of(s: Seq<Rat>) -> Seq<Rat>
    decreases s.len(),
{
    if s.len() == 0 {
        Seq::empty()
    } else {
        insert_sorted(sorted_of(s.drop_last()), s.last())
    }
}

fn insert_number(out: &mut Vec<Number>, x: Number)
    ensures
        nums_view(final(out)@) == insert_sorted(nums_view(old(out)@), x@),
{
    let ghost t = nums_view(out@);
    let mut k: usize = out.len();
    assert(t.subrange(0, k as int) =~= t);
    assert(insert_sorted(t, x@) + t.subrange(k as int, t.len() as int) =~= insert_sorted(t, x@));
    while k > 0 && big_lt(&x, &out[k - 1])
        invariant
            k <= out.len(),
            t == nums_view(out@),
            insert_sorted(t, x@) == insert_sorted(t.subrange(0, k as int), x@) + t.subrange(
                k as int,
                t.len() as int,
            ),
        decreases k,
    {
        let ghost prefix = t.subrange(0, k as int);
        assert(prefix.drop_last() =~= t.subrange(0, k as int - 1));
        assert(prefix.last() == t[k as int - 1]);
        assert(t.subrange(k as int - 1, t.len() as int) =~= seq![t[k as int - 1]] + t.subrange(
            k as int,
            t.len() as int,
        ));
        k = k - 1;
    }
    let ghost x_view = x@;
    if k > 0 {
        assert(t.subrange(0, k as int).last() == t[k as int - 1]);
    }
    assert(insert_sorted(t.subrange(0, k as int), x_view) =~= t.subrange(0, k as int).push(x_view));
    out.insert(k, x);
    assert(nums_view(out@) =~= t.subrange(0, k as int).push(x_view) + t.subrange(
        k as int,
        t.len() as int,
    ));
}

/// A sorted copy of the observations; the input is not modified.
pub fn sorted_numbers(values: &Vec<Number>) -> (r: Vec<Number>)
    ensures
        nums_view(r@) == sorted_of(nums_view(values@)),
{
    let ghost s = nums_view(values@);
    let mut out: Vec<Number> = Vec::new();
    let mut i: usize = 0;
    assert(s.subrange(0, 0) =~= Seq::<Rat>::empty());
    assert(nums_view(out@) =~= Seq::<Rat>::empty());
    while i < values.len()
        invariant
            i <= values.len(),
            s == nums_view(values@),
            nums_view(out@) == sorted_of(s.subrange(0, i as int)),
        decreases values.len() - i,
    {
        assert(s.subrange(0, i as int + 1).drop_last() =~= s.subrange(0, i as int));
        insert_number(&mut out, values[i].copy());
        i = i + 1;
    }
    assert(s.subrange(0, values.len() as int) =~= s);
    out
}

proof fn lemma_insert_sorted_len(t: Seq<Rat>, x: Rat)
    ensures
        insert_sorted(t, x).len() == t.len() + 1,
    decreases t.len(),
{
    if t.len() > 0 && !rat_le(t.last(), x) {
        lemma_insert_sorted_len(t.drop_last(), x);
    }
}

pub proof fn lemma_sorted_len(s: Seq<Rat>)
    ensures
        sorted_of(s).len() == s.len(),
    decreases s.len(),
{
    if s.len() > 0 {
        lemma_sorted_len(s.drop_last());
        lemma_insert_sorted_len(sorted_of(s.drop_last()), s.last());
    }
}

/// The median: the middle order statistic, or the mean of the two middle
/// ones for an even count.
pub open spec fn median_of(s: Seq<Rat>) -> Rat {
    let t = sorted_of(s);
    let n = s.len();
    if n % 2 == 1 {
        t[(n / 2) as int]
    } else {
        rat_div(rat_add(t[n / 2 - 1], t[(n / 2) as int]), rat_int(2))
    }
}

/// The exact median.
pub fn median_number(values: &Vec<Number>) -> (r: Result<Number, EngineError>)
    ensures
        values.len() == 0 <==> r is Err,
        r matches Err(e) ==> e.code == ErrorCode::InsufficientObservations,
        r matches Ok(m) ==> m@ == median_of(nums_view(values@)),
{
    if values.len() == 0 {
        return Err(insufficient("median requires at least one observation"));
    }
    let sorted = sorted_numbers(values);
    proof {
        lemma_sorted_len(nums_view(values@));
    }
    let n = sorted.len();
    if n % 2 == 1 {
        Ok(sorted[n / 2].copy())
    } else {
        let total = big_add(&sorted[n / 2 - 1], &sorted[n / 2]);
        Ok(big_div(&total, &Number::from_u64(2)))
    }
}

// ---------------------------------------------------------------------------
// Quantiles
// ---------------------------------------------------------------------------

/// The interpolation conventions for quantiles.
pub open spec fn is_quantile_method(m: Seq<char>) -> bool {
    m == "linear"@ || m == "lower"@ || m == "higher"@ || m == "midpoint"@ || m == "nearest"@
}

/// The position `h = (n - 1) q` of a quantile among `n` sorted values.
pub open spec fn quantile_position(n: nat, q: Rat) -> Rat {
    rat_mul(rat_int(n - 1), q)
}

/// The index just below the position.
pub open spec fn lower_index(n: nat, q: Rat) -> int {
    rat_floor(quantile_position(n, q))
}

/// The part of the position above the lower index.
pub open spec fn position_fraction(n: nat, q: Rat) -> Rat {
    rat_sub(quantile_position(n, q), rat_int(lower_index(n, q)))
}

/// The index just above the position (the lower index when it is whole).
pub open spec fn upper_index(n: nat, q: Rat) -> int {
    if position_fraction(n, q).num == 0 {
        lower_index(n, q)
    } else if lower_index(n, q) + 1 < n - 1 {
        lower_index(n, q) + 1
    } else {
        n - 1
    }
}

/// The index of the nearest order statistic, ties to the even index.
pub open spec fn nearest_index(n: nat, q: Rat) -> int {
    let twice = rat_mul(position_fraction(n, q), rat_int(2));
    let index = if rat_lt(twice, rat_int(1)) {
        lower_index(n, q)
    } else if rat_lt(rat_int(1), twice) {
        upper_index(n, q)
    } else if lower_index(n, q) % 2 == 0 {
        lower_index(n, q)
    } else {
        upper_index(n, q)
    };
    if index < n - 1 {
        index
    } else {
        n - 1
    }
}

/// R-7 style quantile of a non-empty sequence with `0 <= q <= 1`:
/// `linear` interpolates between the order statistics around `h = (n - 1) q`,
/// `lower` and `higher` take them, `midpoint` averages them, and `nearest`
/// rounds `h` half to even.
pub open spec fn quantile_of(s: Seq<Rat>, q: Rat, method: Seq<char>) -> Rat {
    let t = sorted_of(s);
    let n = s.len();
    let lo = t[lower_index(n, q)];
    let hi = t[upper_index(n, q)];
    if method == "linear"@ {
        rat_add(lo, rat_mul(position_fraction(n, q), rat_sub(hi, lo)))
    } else if method == "lower"@ {
        lo
    } else if method == "higher"@ {
        hi
    } else if method == "midpoint"@ {
        rat_div(rat_add(lo, hi), rat_int(2))
    } else {
        t[nearest_index(n, q)]
    }
}

/// The outcome of a quantile request: the empty input first, then `q` out of
/// `[0, 1]`, then an unknown method.
pub open spec fn quantile_result(s: Seq<Rat>, q: Rat, method: Seq<char>) -> Result<Rat, ErrorCode> {
    if s.len() == 0 {
        Err(ErrorCode::InsufficientObservations)
    } else if rat_lt(q, rat_int(0)) || rat_lt(rat_int(1), q) {
        Err(ErrorCode::DomainViolation)
    } else if !is_quantile_method(method) {
        Err(ErrorCode::DomainViolation)
    } else {
        Ok(quantile_of(s, q, method))
    }
}

/// The position of a quantile lies within the sorted values.
proof fn lemma_lower_index_bounds(n: nat, q: Rat)
    requires
        n >= 1,
        q.den > 0,
        !rat_lt(q, rat_int(0)),
        !rat_lt(rat_int(1), q),
    ensures
        0 <= lower_index(n, q) <= n - 1,
{
    let a = (n - 1) * q.num;
    assert(rat_int(n - 1).num * q.num == a);
    assert(rat_int(n - 1).den * q.den == q.den) by (nonlinear_arith)
        requires
            rat_int(n - 1).den == 1,
    ;
    crate::number::lemma_normalize_value(a, q.den);
    let h = quantile_position(n, q);
    assert(h == crate::number::normalize(a, q.den));
    assert(0 <= q.num <= q.den);
    assert(0 <= a <= (n - 1) * q.den) by (nonlinear_arith)
        requires
            a == (n - 1) * q.num,
            0 <= q.num <= q.den,
            n >= 1,
    ;
    assert(0 <= h.num <= (n - 1) * h.den) by (nonlinear_arith)
        requires
            h.num * q.den == a * h.den,
            0 <= a <= (n - 1) * q.den,
            q.den > 0,
            h.den > 0,
    ;
    assert(0 <= h.num / h.den <= n - 1) by (nonlinear_arith)
        requires
            0 <= h.num <= (n - 1) * h.den,
            h.den > 0,
    ;
}

fn position_of(n: usize, q: &Number) -> (r: (Number, usize, Number))
    requires
        n >= 1,
        !rat_lt(q@, rat_int(0)),
        !rat_lt(rat_int(1), q@),
    ensures
        r.0@ == quantile_position(n as nat, q@),
        r.1 == lower_index(n as nat, q@),
        r.1 < n,
        r.2@ == position_fraction(n as nat, q@),
{
    q.in_lowest_terms();
    proof {
        lemma_lower_index_bounds(n as nat, q@);
    }
    let h = big_mul(&Number::from_u64((n - 1) as u64), q);
    let floor = big_floor(&h);
    let lower = match floor.to_u64() {
        Some(k) => k as usize,
        None => 0,
    };
    let fraction = big_sub(&h, &floor);
    (h, lower, fraction)
}

/// The exact quantile of the observations at `q` with the given method.
pub fn quantile_number(values: &Vec<Number>, q: &Number, method: &str) -> (r: Result<
    Number,
    EngineError,
>)
    ensures
        match r {
            Ok(x) => quantile_result(nums_view(values@), q@, method@) == Ok::<Rat, ErrorCode>(
                x@,
            ),
            Err(e) => quantile_result(nums_view(values@), q@, method@) == Err::<Rat, ErrorCode>(
                e.code,
            ),
        },
{
    if values.len() == 0 {
        return Err(insufficient("quantile requires at least one observation"));
    }
    let zero = Number::zero();
    let one = Number::one();
    if big_lt(q, &zero) || big_lt(&one, q) {
        return Err(EngineError::domain("q must be in [0, 1]"));
    }
    let sorted = sorted_numbers(values);
    proof {
        lemma_sorted_len(nums_view(values@));
    }
    let n = sorted.len();
    let (_, lower, fraction) = position_of(n, q);
    let upper = if fraction.is_zero() {
        lower
    } else if lower + 1 < n - 1 {
        lower + 1
    } else {
        n - 1
    };
    proof {
        reveal_strlit("linear");
        reveal_strlit("lower");
        reveal_strlit("higher");
        reveal_strlit("midpoint");
        reveal_strlit("nearest");
    }
    if str_eq(method, "linear") {
        let span = big_sub(&sorted[upper], &sorted[lower]);
        let step = big_mul(&fraction, &span);
        Ok(big_add(&sorted[lower], &step))
    } else if str_eq(method, "lower") {
        Ok(sorted[lower].copy())
    } else if str_eq(method, "higher") {
        Ok(sorted[upper].copy())
    } else if str_eq(method, "midpoint") {
        let total = big_add(&sorted[lower], &sorted[upper]);
        Ok(big_div(&total, &Number::from_u64(2)))
    } else if str_eq(method, "nearest") {
        let twice = big_mul(&fraction, &Number::from_u64(2));
        let index = if big_lt(&twice, &one) {
            lower
        } else if big_lt(&one, &twice) {
            upper
        } else if lower % 2 == 0 {
            lower
        } else {
            upper
        };
        let index = if index < n - 1 {
            index
        } else {
            n - 1
        };
        Ok(sorted[index].copy())
    } else {
        Err(EngineError::domain("unknown quantile method"))
    }
}

// ---------------------------------------------------------------------------
// Modes
// ---------------------------------------------------------------------------

/// The runs of equal values of a sequence, each with its length.
pub open spec fn runs(t: Seq<Rat>) -> Seq<(Rat, nat)>
    decreases t.len(),
{
    if t.len() == 0 {
        Seq::empty()
    } else {
        let r = runs(t.drop_last());
        if r.len() > 0 && r.last().0 == t.last() {
            r.update(r.len() - 1, (t.last(), r.last().1 + 1))
        } else {
            r.push((t.last(), 1nat))
        }
    }
}

/// The longest run length.
pub open spec fn longest_run(rs: Seq<(Rat, nat)>) -> nat
    decreases rs.len(),
{
    if rs.len() == 0 {
        0
    } else {
        let m = longest_run(rs.drop_last());
        if rs.last().1 > m {
            rs.last().1
        } else {
            m
        }
    }
}

/// The runs of length `m`, in order.
pub open spec fn runs_of_length(rs: Seq<(Rat, nat)>, m: nat) -> Seq<(Rat, nat)>
    decreases rs.len(),
{
    if rs.len() == 0 {
        Seq::empty()
    } else {
        let before = runs_of_length(rs.drop_last(), m);
        if rs.last().1 == m {
            before.push(rs.last())
        } else {
            before
        }
    }
}

/// Every most frequent value, ascending, with its count.
pub open spec fn modes_of(s: Seq<Rat>) -> Seq<(Rat, nat)> {
    let rs = runs(sorted_of(s));
    runs_of_length(rs, longest_run(rs))
}

pub open spec fn pairs_view(values: Seq<Number>, counts: Seq<u64>) -> Seq<(Rat, nat)> {
    Seq::new(values.len(), |j: int| (values[j]@, counts[j] as nat))
}

/// Every most frequent value in ascending order with its count.
pub fn mode_numbers(values: &Vec<Number>) -> (r: Result<(Vec<Number>, Vec<u64>), EngineError>)
    ensures
        values.len() == 0 <==> r is Err,
        r matches Err(e) ==> e.code == ErrorCode::InsufficientObservations,
        r matches Ok((modes, counts)) ==> modes.len() == counts.len() && pairs_view(
            modes@,
            counts@,
        ) == modes_of(nums_view(values@)),
{
    if values.len() == 0 {
        return Err(insufficient("mode requires at least one observation"));
    }
    let sorted = sorted_numbers(values);
    let ghost t = nums_view(sorted@);
    proof {
        lemma_sorted_len(nums_view(values@));
    }
    let mut group_values: Vec<Number> = Vec::new();
    let mut group_counts: Vec<u64> = Vec::new();
    let mut i: usize = 0;
    assert(t.subrange(0, 0) =~= Seq::<Rat>::empty());
    assert(pairs_view(group_values@, group_counts@) =~= Seq::<(Rat, nat)>::empty());
    while i < sorted.len()
        invariant
            i <= sorted.len(),
            sorted.len() == values.len(),
            t == nums_view(sorted@),
            group_values.len() == group_counts.len(),
            pairs_view(group_values@, group_counts@) == runs(t.subrange(0, i as int)),
            forall|j: int| 0 <= j < group_counts.len() ==> #[trigger] group_counts@[j] <= i,
        decreases sorted.len() - i,
    {
        let ghost prefix = t.subrange(0, i as int + 1);
        assert(prefix.drop_last() =~= t.subrange(0, i as int));
        assert(prefix.last() == sorted@[i as int]@);
        let ghost before = pairs_view(group_values@, group_counts@);
        let k = group_values.len();
        if k > 0 && sorted[i].equals(&group_values[k - 1]) {
            let c = group_counts[k - 1];
            group_counts.set(k - 1, c + 1);
            assert(pairs_view(group_values@, group_counts@) =~= before.update(
                k - 1,
                (sorted@[i as int]@, before.last().1 + 1),
            ));
        } else {
            group_values.push(sorted[i].copy());
            group_counts.push(1);
            assert(pairs_view(group_values@, group_counts@) =~= before.push(
                (sorted@[i as int]@, 1nat),
            ));
        }
        i = i + 1;
    }
    assert(t.subrange(0, sorted.len() as int) =~= t);
    let ghost rs = runs(t);
    let mut longest: u64 = 0;
    let mut j: usize = 0;
    assert(rs.subrange(0, 0) =~= Seq::<(Rat, nat)>::empty());
    while j < group_counts.len()
        invariant
            j <= group_counts.len(),
            group_values.len() == group_counts.len(),
            pairs_view(group_values@, group_counts@) == rs,
            longest == longest_run(rs.subrange(0, j as int)),
        decreases group_counts.len() - j,
    {
        assert(rs.subrange(0, j as int + 1).drop_last() =~= rs.subrange(0, j as int));
        assert(rs[j as int].1 == group_counts@[j as int]);
        if group_counts[j] > longest {
            longest = group_counts[j];
        }
        j = j + 1;
    }
    assert(rs.subrange(0, group_counts.len() as int) =~= rs);
    let mut modes: Vec<Number> = Vec::new();
    let mut counts: Vec<u64> = Vec::new();
    let mut m: usize = 0;
    assert(pairs_view(modes@, counts@) =~= Seq::<(Rat, nat)>::empty());
    while m < group_counts.len()
        invariant
            m <= group_counts.len(),
            group_values.len() == group_counts.len(),
            pairs_view(group_values@, group_counts@) == rs,
            longest == longest_run(rs),
            modes.len() == counts.len(),
            pairs_view(modes@, counts@) == runs_of_length(rs.subrange(0, m as int), longest as nat),
        decreases group_counts.len() - m,
    {
        assert(rs.subrange(0, m as int + 1).drop_last() =~= rs.subrange(0, m as int));
        assert(rs[m as int] == (group_values@[m as int]@, group_counts@[m as int] as nat));
        if group_counts[m] == longest {
            let ghost before = pairs_view(modes@, counts@);
            modes.push(group_values[m].copy());
            counts.push(group_counts[m]);
            assert(pairs_view(modes@, counts@) =~= before.push(rs[m as int]));
        }
        m = m + 1;
    }
    assert(rs.subrange(0, group_counts.len() as int) =~= rs);
    Ok((modes, counts))
}

// ---------------------------------------------------------------------------
// Weighted mean
// ---------------------------------------------------------------------------

/// `sum v_i * w_i` over the first `k` pairs.
pub open spec fn weighted_sum(vs: Seq<Rat>, ws: Seq<Rat>, k: nat) -> Rat
    decreases k,
{
    if k == 0 {
        rat_int(0)
    } else {
        let k1 = (k - 1) as nat;
        rat_add(weighted_sum(vs, ws, k1), rat_mul(vs[k1 as int], ws[k1 as int]))
    }
}

/// A weight that is refused: negative, or fractional for frequency weights.
pub open spec fn bad_weight(w: Rat, frequency: bool) -> bool {
    w.num < 0 || (frequency && w.den != 1)
}

/// The weighted mean `sum v_i w_i / sum w_i`, or the first error in the order
/// the inputs are checked.
pub open spec fn weighted_mean_result(vs: Seq<Rat>, ws: Seq<Rat>, weight_type: Seq<char>) -> Result<
    Rat,
    ErrorCode,
> {
    let frequency = weight_type == "frequency"@;
    if !frequency && weight_type != "reliability"@ {
        Err(ErrorCode::DomainViolation)
    } else if vs.len() != ws.len() {
        Err(ErrorCode::MalformedInput)
    } else if vs.len() == 0 {
        Err(ErrorCode::InsufficientObservations)
    } else if exists|i: int| 0 <= i < ws.len() && bad_weight(#[trigger] ws[i], frequency) {
        Err(ErrorCode::DomainViolation)
    } else if rsum(ws).num == 0 {
        Err(ErrorCode::DomainViolation)
    } else {
        Ok(rat_div(weighted_sum(vs, ws, vs.len()), rsum(ws)))
    }
}

/// The first weight that is negative, or not whole for frequency weights.
pub open spec fn first_bad_weight(ws: Seq<Rat>, frequency: bool, i: int) -> bool {
    &&& 0 <= i < ws.len()
    &&& bad_weight(ws[i], frequency)
    &&& forall|j: int| 0 <= j < i ==> !bad_weight(#[trigger] ws[j], frequency)
}

/// The first bad weight is the one chosen.
proof fn lemma_first_bad_weight(ws: Seq<Rat>, frequency: bool, i: int)
    requires
        first_bad_weight(ws, frequency, i),
    ensures
        (choose|k: int| first_bad_weight(ws, frequency, k)) == i,
{
    let k = choose|k: int| first_bad_weight(ws, frequency, k);
    assert(first_bad_weight(ws, frequency, k));
    if k < i {
        assert(!bad_weight(ws[k], frequency));
    } else if i < k {
        assert(!bad_weight(ws[i], frequency));
    }
}

/// Where a weighted mean request fails: at `weight_type` for an unknown
/// weight type, at `weights[i]` for the first bad weight `i`, nowhere in
/// particular otherwise.
pub open spec fn weighted_mean_path(vs: Seq<Rat>, ws: Seq<Rat>, weight_type: Seq<char>) -> Option<
    Seq<char>,
> {
    let frequency = weight_type == "frequency"@;
    if !frequency && weight_type != "reliability"@ {
        Some("weight_type"@)
    } else if vs.len() != ws.len() || vs.len() == 0 {
        None
    } else if exists|i: int| 0 <= i < ws.len() && bad_weight(#[trigger] ws[i], frequency) {
        Some(indexed_path("weights"@, (choose|i: int| first_bad_weight(ws, frequency, i)) as nat))
    } else {
        None
    }
}

/// The exact weighted mean; `weight_type` is `frequency` (non-negative whole
/// weights) or `reliability` (non-negative weights).
pub fn weighted_mean(values: &Vec<Number>, weights: &Vec<Number>, weight_type: &str) -> (r: Result<
    Number,
    EngineError,
>)
    ensures
        match r {
            Ok(x) => weighted_mean_result(nums_view(values@), nums_view(weights@), weight_type@)
                == Ok::<Rat, ErrorCode>(x@),
            Err(e) => weighted_mean_result(nums_view(values@), nums_view(weights@), weight_type@)
                == Err::<Rat, ErrorCode>(e.code) && name_view(e.path) == weighted_mean_path(
                nums_view(values@),
                nums_view(weights@),
                weight_type@,
            ),
        },
{
    proof {
        reveal_strlit("frequency");
        reveal_strlit("reliability");
    }
    let frequency = str_eq(weight_type, "frequency");
    if !frequency && !str_eq(weight_type, "reliability") {
        return Err(
            EngineError::domain("unknown weight_type; expected frequency or reliability").with_path(
                String::from_str("weight_type"),
            ),
        );
    }
    if values.len() != weights.len() {
        return Err(EngineError::malformed("values and weights must have the same length"));
    }
    if values.len() == 0 {
        return Err(insufficient("weighted_mean requires at least one observation"));
    }
    let ghost vs = nums_view(values@);
    let ghost ws = nums_view(weights@);
    let mut i: usize = 0;
    while i < weights.len()
        invariant
            i <= weights.len(),
            ws == nums_view(weights@),
            vs == nums_view(values@),
            values.len() == weights.len(),
            values.len() > 0,
            frequency == (weight_type@ == "frequency"@),
            frequency || weight_type@ == "reliability"@,
            forall|j: int| 0 <= j < i ==> !bad_weight(#[trigger] ws[j], frequency),
        decreases weights.len() - i,
    {
        if weights[i].is_negative() || (frequency && !weights[i].is_integer()) {
            assert(bad_weight(ws[i as int], frequency));
            proof {
                lemma_first_bad_weight(ws, frequency, i as int);
            }
            let message = if weights[i].is_negative() {
                "weights must be non-negative"
            } else {
                "frequency weights must be non-negative integers"
            };
            return Err(EngineError::domain(message).with_path(index_path("weights", i)));
        }
        i = i + 1;
    }
    let mut numerator = Number::zero();
    let mut k: usize = 0;
    while k < values.len()
        invariant
            k <= values.len(),
            values.len() == weights.len(),
            vs == nums_view(values@),
            ws == nums_view(weights@),
            numerator@ == weighted_sum(vs, ws, k as nat),
        decreases values.len() - k,
    {
        let product = big_mul(&values[k], &weights[k]);
        numerator = big_add(&numerator, &product);
        k = k + 1;
    }
    let denominator = sum_numbers(weights);
    if denominator.is_zero() {
        return Err(EngineError::domain("total weight must be strictly positive"));
    }
    Ok(big_div(&numerator, &denominator))
}

// ---------------------------------------------------------------------------
// Standard deviation and summary
// ---------------------------------------------------------------------------

/// A standard deviation: exact when the variance is a perfect square, else
/// the variance whose binary64 square root the caller takes.
pub enum StdDev {
    Exact(Number),
    Approximate(Number),
}

pub enum StdDevView {
    Exact(Rat),
    Approximate(Rat),
}

impl View for StdDev {
    type V = StdDevView;

    open spec fn view(&self) -> StdDevView {
        match self {
            StdDev::Exact(x) => StdDevView::Exact(x@),
            StdDev::Approximate(v) => StdDevView::Approximate(v@),
        }
    }
}

/// The exact square root of a rational that has one.
pub open spec fn rat_sqrt(v: Rat) -> Rat {
    normalize(square_root(v.num) as int, square_root(v.den) as int)
}

pub open spec fn has_rat_sqrt(v: Rat) -> bool {
    v.num >= 0 && is_square(v.num) && is_square(v.den)
}

/// The standard deviation of a variance under the numeric mode: exact for a
/// perfect square, refused in exact mode otherwise, else left to binary64.
pub open spec fn stddev_of_variance(v: Rat, mode: NumericMode) -> Result<StdDevView, ErrorCode> {
    if v.num < 0 {
        Err(ErrorCode::Internal)
    } else if has_rat_sqrt(v) {
        Ok(StdDevView::Exact(rat_sqrt(v)))
    } else if mode == NumericMode::Exact {
        Err(ErrorCode::UnsupportedNumericMode)
    } else {
        Ok(StdDevView::Approximate(v))
    }
}

fn stddev_of(variance: Number, mode: NumericMode) -> (r: Result<StdDev, EngineError>)
    ensures
        match r {
            Ok(x) => stddev_of_variance(variance@, mode) == Ok::<StdDevView, ErrorCode>(x@),
            Err(e) => stddev_of_variance(variance@, mode) == Err::<StdDevView, ErrorCode>(e.code),
        },
{
    if variance.is_negative() {
        return Err(EngineError::new(ErrorCode::Internal, "negative exact variance"));
    }
    match rational_sqrt_exact(&variance) {
        Some(root) => Ok(StdDev::Exact(root)),
        None => {
            if mode == NumericMode::Exact {
                return Err(EngineError::new(
                    ErrorCode::UnsupportedNumericMode,
                    "variance is not a perfect square; exact mode cannot represent the standard deviation",
                ));
            }
            Ok(StdDev::Approximate(variance))
        },
    }
}

/// The standard deviation with `ddof` delta degrees of freedom.
pub fn stddev_exact(values: &Vec<Number>, ddof: u64, mode: NumericMode) -> (r: Result<
    StdDev,
    EngineError,
>)
    ensures
        values.len() == 0 || values.len() <= ddof ==> (r matches Err(e) && e.code
            == ErrorCode::InsufficientObservations),
        !(values.len() == 0 || values.len() <= ddof) ==> match r {
            Ok(x) => stddev_of_variance(variance_of(nums_view(values@), ddof as nat), mode)
                == Ok::<StdDevView, ErrorCode>(x@),
            Err(e) => stddev_of_variance(variance_of(nums_view(values@), ddof as nat), mode)
                == Err::<StdDevView, ErrorCode>(e.code),
        },
{
    let variance = variance_exact(values, ddof)?;
    stddev_of(variance, mode)
}

/// The summary record of at least two observations.
pub struct Summary {
    pub count: usize,
    pub mean: Number,
    pub minimum: Number,
    pub maximum: Number,
    pub median: Number,
    pub variance: Number,
    pub stddev: StdDev,
    pub q25: Number,
    pub q50: Number,
    pub q75: Number,
}

/// Count, mean, extremes, median, variance and standard deviation (ddof 1),
/// and the linear quartiles.
pub fn summary(values: &Vec<Number>, mode: NumericMode) -> (r: Result<Summary, EngineError>)
    ensures
        values.len() < 2 ==> (r matches Err(e) && e.code == ErrorCode::InsufficientObservations),
        r matches Err(e) ==> values.len() < 2 || stddev_of_variance(
            variance_of(nums_view(values@), 1),
            mode,
        ) == Err::<StdDevView, ErrorCode>(e.code),
        r matches Ok(x) ==> {
            let s = nums_view(values@);
            &&& values.len() >= 2
            &&& x.count == values.len()
            &&& x.mean@ == mean_of(s)
            &&& x.minimum@ == extreme_of(s, true)
            &&& x.maximum@ == extreme_of(s, false)
            &&& x.median@ == median_of(s)
            &&& x.variance@ == variance_of(s, 1)
            &&& stddev_of_variance(variance_of(s, 1), mode) == Ok::<StdDevView, ErrorCode>(
                x.stddev@,
            )
            &&& x.q25@ == quantile_of(s, normalize(1, 4), "linear"@)
            &&& x.q50@ == quantile_of(s, normalize(1, 2), "linear"@)
            &&& x.q75@ == quantile_of(s, normalize(3, 4), "linear"@)
        },
        values.len() >= 2 && stddev_of_variance(variance_of(nums_view(values@), 1), mode) is Ok
            ==> r is Ok,
{
    if values.len() < 2 {
        return Err(insufficient("summary requires at least two observations because variance uses ddof = 1"));
    }
    let mean = match mean_exact(values) {
        Ok(m) => m,
        Err(e) => return Err(e),
    };
    let variance = match variance_exact(values, 1) {
        Ok(v) => v,
        Err(e) => return Err(e),
    };
    let stddev = stddev_of(variance.copy(), mode)?;
    let minimum = match extreme_number(values, true) {
        Ok(v) => v,
        Err(e) => return Err(e),
    };
    let maximum = match extreme_number(values, false) {
        Ok(v) => v,
        Err(e) => return Err(e),
    };
    let median = match median_number(values) {
        Ok(v) => v,
        Err(e) => return Err(e),
    };
    proof {
        reveal_strlit("linear");
    }
    let quarter = big_div(&Number::from_u64(1), &Number::from_u64(4));
    let half = big_div(&Number::from_u64(1), &Number::from_u64(2));
    let three_quarters = big_div(&Number::from_u64(3), &Number::from_u64(4));
    proof {
        crate::number::lemma_normalize_value(1, 4);
        crate::number::lemma_normalize_value(1, 2);
        crate::number::lemma_normalize_value(3, 4);
        assert(quarter@ == normalize(1, 4));
        assert(half@ == normalize(1, 2));
        assert(three_quarters@ == normalize(3, 4));
    }
    let q25 = match quantile_number(values, &quarter, "linear") {
        Ok(v) => v,
        Err(e) => return Err(e),
    };
    let q50 = match quantile_number(values, &half, "linear") {
        Ok(v) => v,
        Err(e) => return Err(e),
    };
    let q75 = match quantile_number(values, &three_quarters, "linear") {
        Ok(v) => v,
        Err(e) => return Err(e),
    };
    Ok(Summary {
        count: values.len(),
        mean,
        minimum,
        maximum,
        median,
        variance,
        stddev,
        q25,
        q50,
        q75,
    })
}

// ---------------------------------------------------------------------------
// Laws of the order statistics
// ---------------------------------------------------------------------------

/// Every fraction has a positive denominator, as every number's view does.
pub open spec fn positive_dens(s: Seq<Rat>) -> bool {
    forall|i: int| 0 <= i < s.len() ==> (#[trigger] s[i]).den > 0
}

/// Ascending order.
pub open spec fn ascending(t: Seq<Rat>) -> bool {
    forall|i: int, j: int| 0 <= i < j < t.len() ==> rat_le(#[trigger] t[i], #[trigger] t[j])
}

proof fn lemma_rat_le_trans(a: Rat, b: Rat, c: Rat)
    requires
        a.den > 0,
        b.den > 0,
        c.den > 0,
        rat_le(a, b),
        rat_le(b, c),
    ensures
        rat_le(a, c),
{
    assert(a.num * c.den <= c.num * a.den) by (nonlinear_arith)
        requires
            a.num * b.den <= b.num * a.den,
            b.num * c.den <= c.num * b.den,
            a.den > 0,
            b.den > 0,
            c.den > 0,
    ;
}

proof fn lemma_insert_sorted_laws(t: Seq<Rat>, x: Rat)
    requires
        positive_dens(t),
        x.den > 0,
        ascending(t),
    ensures
        ascending(insert_sorted(t, x)),
        insert_sorted(t, x).to_multiset() == t.to_multiset().insert(x),
    decreases t.len(),
{
    broadcast use vstd::seq_lib::group_to_multiset_ensures;

    if t.len() == 0 {
        assert(insert_sorted(t, x) =~= Seq::<Rat>::empty().push(x));
    } else {
        let last = t.last();
        let init = t.drop_last();
        assert(t =~= init.push(last));
        if rat_le(last, x) {
            assert forall|i: int, j: int| 0 <= i < j < t.len() + 1 implies rat_le(
                #[trigger] t.push(x)[i],
                #[trigger] t.push(x)[j],
            ) by {
                if j == t.len() {
                    if i < t.len() - 1 {
                        lemma_rat_le_trans(t[i], last, x);
                    }
                }
            }
        } else {
            assert(positive_dens(init));
            assert(ascending(init));
            lemma_insert_sorted_laws(init, x);
            let u = insert_sorted(init, x);
            assert(u.to_multiset() == init.to_multiset().insert(x));
            assert forall|k: int| 0 <= k < u.len() implies rat_le(#[trigger] u[k], last) && u[k].den
                > 0 by {
                assert(u.to_multiset().count(u[k]) > 0);
                if u[k] != x {
                    assert(init.to_multiset().count(u[k]) > 0);
                    assert(init.contains(u[k]));
                    let m = choose|m: int| 0 <= m < init.len() && init[m] == u[k];
                    assert(t[m] == u[k]);
                }
            }
            assert forall|i: int, j: int| 0 <= i < j < u.len() + 1 implies rat_le(
                #[trigger] u.push(last)[i],
                #[trigger] u.push(last)[j],
            ) by {
                if j == u.len() {
                    assert(u.push(last)[i] == u[i]);
                } else {
                    assert(u.push(last)[i] == u[i]);
                    assert(u.push(last)[j] == u[j]);
                }
            }
        }
    }
}

/// The sorted observations are in ascending order and are a rearrangement of
/// the observations.
pub proof fn lemma_sorted_laws(s: Seq<Rat>)
    requires
        positive_dens(s),
    ensures
        ascending(sorted_of(s)),
        sorted_of(s).to_multiset() == s.to_multiset(),
    decreases s.len(),
{
    broadcast use vstd::seq_lib::group_to_multiset_ensures;

    if s.len() > 0 {
        let init = s.drop_last();
        assert(positive_dens(init));
        lemma_sorted_laws(init);
        let t = sorted_of(init);
        assert forall|i: int| 0 <= i < t.len() implies (#[trigger] t[i]).den > 0 by {
            assert(t.to_multiset().count(t[i]) > 0);
            assert(init.contains(t[i]));
        }
        lemma_insert_sorted_laws(t, s.last());
        assert(s =~= init.push(s.last()));
    }
}

/// The smallest observation is one of the observations and no observation is
/// below it; the largest is one of them and none is above it.
pub proof fn lemma_extreme_laws(s: Seq<Rat>, minimum: bool)
    requires
        s.len() > 0,
        positive_dens(s),
    ensures
        s.contains(extreme_of(s, minimum)),
        forall|i: int|
            0 <= i < s.len() ==> if minimum {
                rat_le(extreme_of(s, minimum), #[trigger] s[i])
            } else {
                rat_le(s[i], extreme_of(s, minimum))
            },
    decreases s.len(),
{
    if s.len() == 1 {
        assert(s[0] == extreme_of(s, minimum));
    } else {
        let init = s.drop_last();
        assert(positive_dens(init));
        lemma_extreme_laws(init, minimum);
        let best = extreme_of(init, minimum);
        let x = s.last();
        let m = choose|m: int| 0 <= m < init.len() && init[m] == best;
        assert(s[m] == best);
        assert(best.den > 0);
        assert forall|i: int| 0 <= i < s.len() implies if minimum {
            rat_le(extreme_of(s, minimum), #[trigger] s[i])
        } else {
            rat_le(s[i], extreme_of(s, minimum))
        } by {
            if i < s.len() - 1 {
                assert(s[i] == init[i]);
                if minimum && rat_lt(x, best) {
                    lemma_rat_le_trans(x, best, s[i]);
                } else if !minimum && rat_lt(best, x) {
                    lemma_rat_le_trans(s[i], best, x);
                }
            }
        }
    }
}

proof fn lemma_add_nonnegative(a: Rat, b: Rat)
    requires
        a.den > 0,
        b.den > 0,
        a.num >= 0,
        b.num >= 0,
    ensures
        rat_add(a, b).den > 0,
        rat_add(a, b).num >= 0,
{
    let n = a.num * b.den + b.num * a.den;
    let d = a.den * b.den;
    assert(n >= 0 && d > 0) by (nonlinear_arith)
        requires
            a.den > 0,
            b.den > 0,
            a.num >= 0,
            b.num >= 0,
            n == a.num * b.den + b.num * a.den,
            d == a.den * b.den,
    ;
    crate::number::lemma_normalize_value(n, d);
    let r = rat_add(a, b);
    assert(r.num >= 0) by (nonlinear_arith)
        requires
            r.num * d == n * r.den,
            n >= 0,
            d > 0,
            r.den > 0,
    ;
}

proof fn lemma_square_nonnegative(a: Rat)
    requires
        a.den > 0,
    ensures
        rat_mul(a, a).den > 0,
        rat_mul(a, a).num >= 0,
{
    let n = a.num * a.num;
    let d = a.den * a.den;
    assert(n >= 0 && d > 0) by (nonlinear_arith)
        requires
            a.den > 0,
            n == a.num * a.num,
            d == a.den * a.den,
    ;
    crate::number::lemma_normalize_value(n, d);
    let r = rat_mul(a, a);
    assert(r.num >= 0) by (nonlinear_arith)
        requires
            r.num * d == n * r.den,
            n >= 0,
            d > 0,
            r.den > 0,
    ;
}

proof fn lemma_squares_nonnegative(s: Seq<Rat>, m: Rat)
    requires
        positive_dens(s),
        m.den > 0,
    ensures
        squares_about(s, m).den > 0,
        squares_about(s, m).num >= 0,
    decreases s.len(),
{
    if s.len() == 0 {
    } else {
        let init = s.drop_last();
        assert(positive_dens(init));
        lemma_squares_nonnegative(init, m);
        let x = s.last();
        assert(x.den > 0);
        let n = x.num * m.den - m.num * x.den;
        let dd = x.den * m.den;
        assert(dd > 0) by (nonlinear_arith)
            requires
                x.den > 0,
                m.den > 0,
                dd == x.den * m.den,
        ;
        crate::number::lemma_normalize_value(n, dd);
        let d = rat_sub(x, m);
        lemma_square_nonnegative(d);
        lemma_add_nonnegative(squares_about(init, m), rat_mul(d, d));
    }
}

proof fn lemma_sum_den(s: Seq<Rat>)
    requires
        positive_dens(s),
    ensures
        rsum(s).den > 0,
    decreases s.len(),
{
    if s.len() > 0 {
        let init = s.drop_last();
        assert(positive_dens(init));
        lemma_sum_den(init);
        let a = rsum(init);
        let b = s.last();
        assert(b.den > 0);
        assert(a.den * b.den > 0) by (nonlinear_arith)
            requires
                a.den > 0,
                b.den > 0,
        ;
        crate::number::lemma_normalize_value(a.num * b.den + b.num * a.den, a.den * b.den);
    }
}

/// A variance is never negative.
pub proof fn lemma_variance_nonnegative(s: Seq<Rat>, ddof: nat)
    requires
        s.len() > ddof,
        positive_dens(s),
    ensures
        variance_of(s, ddof).num >= 0,
{
    lemma_sum_den(s);
    let total = rsum(s);
    let n = s.len() as int;
    assert(total.den * n > 0) by (nonlinear_arith)
        requires
            total.den > 0,
            n > 0,
    ;
    crate::number::lemma_normalize_value(total.num * 1, total.den * n);
    let m = mean_of(s);
    lemma_squares_nonnegative(s, m);
    let q = squares_about(s, m);
    let k = n - ddof;
    assert(q.den * k > 0 && q.num * 1 >= 0) by (nonlinear_arith)
        requires
            q.den > 0,
            k > 0,
            q.num >= 0,
    ;
    crate::number::lemma_normalize_value(q.num * 1, q.den * k);
    let v = variance_of(s, ddof);
    assert(v.num >= 0) by (nonlinear_arith)
        requires
            v.num * (q.den * k) == (q.num * 1) * v.den,
            q.num * 1 >= 0,
            q.den * k > 0,
            v.den > 0,
    ;
}

/// The `lower`, `higher` and `nearest` quantiles are observations.
pub proof fn lemma_quantile_is_observation(s: Seq<Rat>, q: Rat, method: Seq<char>)
    requires
        s.len() > 0,
        positive_dens(s),
        q.den > 0,
        quantile_result(s, q, method) is Ok,
        method == "lower"@ || method == "higher"@ || method == "nearest"@,
    ensures
        s.contains(quantile_of(s, q, method)),
{
    broadcast use vstd::seq_lib::group_to_multiset_ensures;

    reveal_strlit("linear");
    reveal_strlit("lower");
    reveal_strlit("higher");
    reveal_strlit("midpoint");
    reveal_strlit("nearest");
    let n = s.len();
    lemma_lower_index_bounds(n, q);
    lemma_sorted_laws(s);
    lemma_sorted_len(s);
    let t = sorted_of(s);
    let k = if method == "lower"@ {
        lower_index(n, q)
    } else if method == "higher"@ {
        upper_index(n, q)
    } else {
        nearest_index(n, q)
    };
    assert(0 <= k < n);
    assert("lower"@ != "linear"@ && "higher"@ != "linear"@ && "nearest"@ != "linear"@) by {
        assert("lower"@.len() != "linear"@.len());
        assert("higher"@[0] != "linear"@[0]);
        assert("nearest"@[0] != "linear"@[0]);
    }
    assert("higher"@ != "lower"@ && "nearest"@ != "lower"@ && "nearest"@ != "higher"@) by {
        assert("higher"@[0] != "lower"@[0]);
        assert("nearest"@[0] != "lower"@[0]);
        assert("nearest"@[0] != "higher"@[0]);
    }
    assert("nearest"@ != "midpoint"@) by {
        assert("nearest"@[0] != "midpoint"@[0]);
    }
    assert(quantile_of(s, q, method) == t[k]);
    assert(t.to_multiset().count(t[k]) > 0);
}

proof fn lemma_average_bounds(lo: Rat, a: Rat, b: Rat, hi: Rat)
    requires
        lo.den > 0,
        a.den > 0,
        b.den > 0,
        hi.den > 0,
        rat_le(lo, a),
        rat_le(lo, b),
        rat_le(a, hi),
        rat_le(b, hi),
    ensures
        rat_le(lo, rat_div(rat_add(a, b), rat_int(2))),
        rat_le(rat_div(rat_add(a, b), rat_int(2)), hi),
{
    let sn = a.num * b.den + b.num * a.den;
    let sd = a.den * b.den;
    assert(sd > 0) by (nonlinear_arith)
        requires
            a.den > 0,
            b.den > 0,
            sd == a.den * b.den,
    ;
    crate::number::lemma_normalize_value(sn, sd);
    let sum = rat_add(a, b);
    let an = sum.num * 1;
    let ad = sum.den * 2;
    assert(ad > 0);
    crate::number::lemma_normalize_value(an, ad);
    let avg = rat_div(sum, rat_int(2));
    assert(avg == crate::number::normalize(an, ad));
    // avg.num / avg.den == sum.num / (2 sum.den) == sn / (2 sd)
    assert(avg.num * (2 * sd) == sn * avg.den) by (nonlinear_arith)
        requires
            avg.num * ad == an * avg.den,
            an == sum.num,
            ad == sum.den * 2,
            sum.num * sd == sn * sum.den,
            sum.den > 0,
            avg.den > 0,
    ;
    // lo <= a and lo <= b give 2 lo <= a + b, scaled by the denominators.
    assert(lo.num * (2 * sd) <= sn * lo.den) by (nonlinear_arith)
        requires
            lo.num * a.den <= a.num * lo.den,
            lo.num * b.den <= b.num * lo.den,
            sn == a.num * b.den + b.num * a.den,
            sd == a.den * b.den,
            a.den > 0,
            b.den > 0,
            lo.den > 0,
    ;
    assert(sn * hi.den <= hi.num * (2 * sd)) by (nonlinear_arith)
        requires
            a.num * hi.den <= hi.num * a.den,
            b.num * hi.den <= hi.num * b.den,
            sn == a.num * b.den + b.num * a.den,
            sd == a.den * b.den,
            a.den > 0,
            b.den > 0,
            hi.den > 0,
    ;
    assert(lo.num * avg.den <= avg.num * lo.den) by (nonlinear_arith)
        requires
            avg.num * (2 * sd) == sn * avg.den,
            lo.num * (2 * sd) <= sn * lo.den,
            sd > 0,
            avg.den > 0,
            lo.den > 0,
    ;
    assert(avg.num * hi.den <= hi.num * avg.den) by (nonlinear_arith)
        requires
            avg.num * (2 * sd) == sn * avg.den,
            sn * hi.den <= hi.num * (2 * sd),
            sd > 0,
            avg.den > 0,
            hi.den > 0,
    ;
}

/// The median lies between the smallest and the largest observation.
pub proof fn lemma_median_between_extremes(s: Seq<Rat>)
    requires
        s.len() > 0,
        positive_dens(s),
    ensures
        rat_le(extreme_of(s, true), median_of(s)),
        rat_le(median_of(s), extreme_of(s, false)),
{
    broadcast use vstd::seq_lib::group_to_multiset_ensures;

    lemma_sorted_laws(s);
    lemma_sorted_len(s);
    lemma_extreme_laws(s, true);
    lemma_extreme_laws(s, false);
    let t = sorted_of(s);
    let n = s.len();
    let lo = extreme_of(s, true);
    let hi = extreme_of(s, false);
    let m = choose|m: int| 0 <= m < s.len() && s[m] == lo;
    let h = choose|h: int| 0 <= h < s.len() && s[h] == hi;
    assert(lo.den > 0 && hi.den > 0) by {
        assert(s[m].den > 0);
        assert(s[h].den > 0);
    }
    // every order statistic is an observation, so it lies between the extremes
    assert forall|k: int| 0 <= k < n implies (#[trigger] t[k]).den > 0 && rat_le(lo, t[k])
        && rat_le(t[k], hi) by {
        assert(t.to_multiset().count(t[k]) > 0);
        assert(s.contains(t[k]));
        let j = choose|j: int| 0 <= j < s.len() && s[j] == t[k];
        assert(s[j].den > 0);
        assert(rat_le(lo, s[j]));
        assert(rat_le(s[j], hi));
    }
    if n % 2 == 1 {
        assert(t[(n / 2) as int].den > 0);
    } else {
        let a = t[(n / 2 - 1) as int];
        let b = t[(n / 2) as int];
        assert(rat_le(lo, a) && rat_le(a, hi) && a.den > 0);
        assert(rat_le(lo, b) && rat_le(b, hi) && b.den > 0);
        lemma_average_bounds(lo, a, b, hi);
    }
}

// ---------------------------------------------------------------------------
// Laws of the modes
// ---------------------------------------------------------------------------

/// Of two fractions in lowest terms, one not above the other, either they are
/// the same fraction or the first is strictly below.
proof fn lemma_le_reduced(a: Rat, b: Rat)
    requires
        crate::number::reduced(a),
        crate::number::reduced(b),
        rat_le(a, b),
    ensures
        a == b || rat_lt(a, b),
{
    if a.num * b.den == b.num * a.den {
        crate::number::lemma_reduced_unique(a, b);
    }
}

/// The runs of an ascending sequence in lowest terms: each run's length is
/// the multiplicity of its value, the run values are strictly increasing,
/// every element is the value of a run, and every run value is an element.
#[verifier::rlimit(30)]
proof fn lemma_runs_laws(t: Seq<Rat>)
    requires
        ascending(t),
        all_reduced(t),
    ensures
        forall|i: int|
            0 <= i < runs(t).len() ==> (#[trigger] runs(t)[i]).1 == t.to_multiset().count(
                runs(t)[i].0,
            ),
        forall|i: int, j: int|
            0 <= i < j < runs(t).len() ==> rat_lt(#[trigger] runs(t)[i].0, #[trigger] runs(t)[j].0),
        forall|k: int|
            0 <= k < t.len() ==> exists|i: int| 0 <= i < runs(t).len() && #[trigger] runs(t)[i].0
                == #[trigger] t[k],
        forall|i: int| 0 <= i < runs(t).len() ==> t.contains(#[trigger] runs(t)[i].0),
        t.len() > 0 ==> runs(t).len() > 0 && runs(t).last().0 == t.last(),
    decreases t.len(),
{
    broadcast use vstd::seq_lib::group_to_multiset_ensures;

    if t.len() > 0 {
        let init = t.drop_last();
        let x = t.last();
        assert(t =~= init.push(x));
        assert(ascending(init));
        assert(all_reduced(init));
        lemma_runs_laws(init);
        let r = runs(init);
        let rt = runs(t);
        assert(crate::number::reduced(x));
        assert forall|i: int| 0 <= i < r.len() implies crate::number::reduced(#[trigger] r[i].0)
            && rat_le(r[i].0, x) by {
            let m = choose|m: int| 0 <= m < init.len() && init[m] == r[i].0;
            assert(t[m] == r[i].0);
        }
        if r.len() > 0 && r.last().0 == x {
            assert forall|i: int| 0 <= i < rt.len() implies (#[trigger] rt[i]).1
                == t.to_multiset().count(rt[i].0) by {
                if i < r.len() - 1 {
                    assert(rat_lt(r[i].0, r[r.len() - 1].0));
                    assert(r[i].0 != x);
                }
            }
            assert forall|k: int| 0 <= k < t.len() implies exists|i: int|
                0 <= i < rt.len() && #[trigger] rt[i].0 == #[trigger] t[k] by {
                if k < init.len() {
                    assert(init[k] == t[k]);
                    let i = choose|i: int| 0 <= i < r.len() && #[trigger] r[i].0 == init[k];
                    assert(rt[i].0 == t[k]);
                } else {
                    assert(rt[r.len() - 1].0 == t[k]);
                }
            }
            assert forall|i: int| 0 <= i < rt.len() implies t.contains(#[trigger] rt[i].0) by {
                assert(init.contains(r[i].0));
                let m = choose|m: int| 0 <= m < init.len() && init[m] == r[i].0;
                assert(t[m] == rt[i].0);
            }
        } else {
            // x is not among the earlier elements
            assert(init.to_multiset().count(x) == 0) by {
                if init.contains(x) {
                    let m = choose|m: int| 0 <= m < init.len() && init[m] == x;
                    let last = init.len() - 1;
                    assert(rat_le(t[m], t[last]));
                    assert(rat_le(t[last], t[t.len() - 1]));
                    assert(crate::number::reduced(t[m]));
                    assert(crate::number::reduced(t[last]));
                    crate::number::lemma_reduced_unique(t[m], t[last]);
                    assert(r.last().0 == init.last());
                }
            }
            assert forall|i: int| 0 <= i < r.len() implies r[i].0 != x by {
                assert(init.contains(r[i].0));
                assert(init.to_multiset().count(r[i].0) > 0);
            }
            assert forall|i: int| 0 <= i < rt.len() implies (#[trigger] rt[i]).1
                == t.to_multiset().count(rt[i].0) by {
                if i < r.len() {
                    assert(rt[i] == r[i]);
                }
            }
            assert forall|i: int, j: int| 0 <= i < j < rt.len() implies rat_lt(
                #[trigger] rt[i].0,
                #[trigger] rt[j].0,
            ) by {
                if j == r.len() {
                    assert(rt[i] == r[i]);
                    lemma_le_reduced(r[i].0, x);
                } else {
                    assert(rt[i] == r[i]);
                    assert(rt[j] == r[j]);
                }
            }
            assert forall|k: int| 0 <= k < t.len() implies exists|i: int|
                0 <= i < rt.len() && #[trigger] rt[i].0 == #[trigger] t[k] by {
                if k < init.len() {
                    assert(init[k] == t[k]);
                    let i = choose|i: int| 0 <= i < r.len() && #[trigger] r[i].0 == init[k];
                    assert(rt[i].0 == t[k]);
                } else {
                    assert(rt[r.len() as int].0 == t[k]);
                }
            }
            assert forall|i: int| 0 <= i < rt.len() implies t.contains(#[trigger] rt[i].0) by {
                if i < r.len() {
                    assert(init.contains(r[i].0));
                    let m = choose|m: int| 0 <= m < init.len() && init[m] == r[i].0;
                    assert(t[m] == rt[i].0);
                } else {
                    assert(t[t.len() - 1] == rt[i].0);
                }
            }
        }
    }
}

proof fn lemma_longest_run(rs: Seq<(Rat, nat)>)
    ensures
        forall|i: int| 0 <= i < rs.len() ==> (#[trigger] rs[i]).1 <= longest_run(rs),
        rs.len() > 0 ==> exists|i: int| 0 <= i < rs.len() && (#[trigger] rs[i]).1 == longest_run(rs),
    decreases rs.len(),
{
    if rs.len() > 0 {
        let init = rs.drop_last();
        lemma_longest_run(init);
        assert forall|i: int| 0 <= i < rs.len() implies (#[trigger] rs[i]).1 <= longest_run(rs) by {
            if i < init.len() {
                assert(init[i] == rs[i]);
            }
        }
        if rs.last().1 > longest_run(init) {
            assert(rs[rs.len() - 1].1 == longest_run(rs));
        } else if init.len() > 0 {
            let i = choose|i: int| 0 <= i < init.len() && (#[trigger] init[i]).1 == longest_run(init);
            assert(rs[i].1 == longest_run(rs));
        } else {
            assert(rs[0].1 == longest_run(rs));
        }
    }
}

proof fn lemma_runs_of_length_from(rs: Seq<(Rat, nat)>, m: nat)
    ensures
        forall|k: int|
            0 <= k < runs_of_length(rs, m).len() ==> (#[trigger] runs_of_length(rs, m)[k]).1 == m
                && rs.contains(runs_of_length(rs, m)[k]),
    decreases rs.len(),
{
    if rs.len() > 0 {
        let init = rs.drop_last();
        lemma_runs_of_length_from(init, m);
        let f = runs_of_length(init, m);
        let g = runs_of_length(rs, m);
        assert forall|k: int| 0 <= k < g.len() implies (#[trigger] g[k]).1 == m && rs.contains(
            g[k],
        ) by {
            if k < f.len() {
                assert(g[k] == f[k]);
                assert(init.contains(f[k]));
                let i = choose|i: int| 0 <= i < init.len() && init[i] == f[k];
                assert(rs[i] == g[k]);
            } else {
                assert(g[k] == rs[rs.len() - 1]);
            }
        }
    }
}

proof fn lemma_runs_of_length_complete(rs: Seq<(Rat, nat)>, m: nat)
    ensures
        forall|i: int|
            0 <= i < rs.len() && (#[trigger] rs[i]).1 == m ==> runs_of_length(rs, m).contains(rs[i]),
    decreases rs.len(),
{
    if rs.len() > 0 {
        let init = rs.drop_last();
        lemma_runs_of_length_complete(init, m);
        let f = runs_of_length(init, m);
        let g = runs_of_length(rs, m);
        assert forall|i: int| 0 <= i < rs.len() && (#[trigger] rs[i]).1 == m implies g.contains(
            rs[i],
        ) by {
            if i < init.len() {
                assert(init[i] == rs[i]);
                assert(f.contains(init[i]));
                let k = choose|k: int| 0 <= k < f.len() && f[k] == init[i];
                assert(g[k] == f[k]);
            } else {
                assert(g[f.len() as int] == rs[i]);
            }
        }
    }
}

proof fn lemma_runs_of_length_increasing(rs: Seq<(Rat, nat)>, m: nat)
    requires
        forall|i: int, j: int| 0 <= i < j < rs.len() ==> rat_lt(#[trigger] rs[i].0, #[trigger] rs[j].0),
    ensures
        forall|k1: int, k2: int|
            0 <= k1 < k2 < runs_of_length(rs, m).len() ==> rat_lt(
                #[trigger] runs_of_length(rs, m)[k1].0,
                #[trigger] runs_of_length(rs, m)[k2].0,
            ),
    decreases rs.len(),
{
    if rs.len() > 0 {
        let init = rs.drop_last();
        assert forall|i: int, j: int| 0 <= i < j < init.len() implies rat_lt(
            #[trigger] init[i].0,
            #[trigger] init[j].0,
        ) by {
            assert(init[i] == rs[i] && init[j] == rs[j]);
        }
        lemma_runs_of_length_increasing(init, m);
        lemma_runs_of_length_from(init, m);
        let f = runs_of_length(init, m);
        let g = runs_of_length(rs, m);
        if rs.last().1 == m {
            assert forall|k1: int, k2: int| 0 <= k1 < k2 < g.len() implies rat_lt(
                #[trigger] g[k1].0,
                #[trigger] g[k2].0,
            ) by {
                assert(g[k1] == f[k1]);
                if k2 < f.len() {
                    assert(g[k2] == f[k2]);
                } else {
                    assert(init.contains(f[k1]));
                    let i = choose|i: int| 0 <= i < init.len() && init[i] == f[k1];
                    assert(rs[i] == init[i]);
                    assert(g[k2] == rs[rs.len() - 1]);
                }
            }
        } else {
            assert(g == f);
        }
    }
}

/// The modes are exactly the most frequent observations, in ascending order,
/// each with its multiplicity.
pub proof fn lemma_mode_laws(s: Seq<Rat>)
    requires
        all_reduced(s),
    ensures
        forall|k: int|
            0 <= k < modes_of(s).len() ==> (#[trigger] modes_of(s)[k]).1 == s.to_multiset().count(
                modes_of(s)[k].0,
            ),
        forall|k: int, x: Rat|
            0 <= k < modes_of(s).len() ==> #[trigger] s.to_multiset().count(x) <= (
            #[trigger] modes_of(s)[k]).1,
        forall|x: Rat|
            s.to_multiset().count(x) > 0 && (forall|y: Rat|
                s.to_multiset().count(y) <= #[trigger] s.to_multiset().count(x)) ==> exists|k: int|
                0 <= k < modes_of(s).len() && (#[trigger] modes_of(s)[k]).0 == x,
        forall|k1: int, k2: int|
            0 <= k1 < k2 < modes_of(s).len() ==> rat_lt(
                #[trigger] modes_of(s)[k1].0,
                #[trigger] modes_of(s)[k2].0,
            ),
        s.len() > 0 ==> modes_of(s).len() > 0,
{
    broadcast use vstd::seq_lib::group_to_multiset_ensures;

    assert(positive_dens(s)) by {
        assert forall|i: int| 0 <= i < s.len() implies (#[trigger] s[i]).den > 0 by {
            assert(crate::number::reduced(s[i]));
        }
    }
    lemma_sorted_laws(s);
    let t = sorted_of(s);
    assert(all_reduced(t)) by {
        assert forall|i: int| 0 <= i < t.len() implies crate::number::reduced(#[trigger] t[i]) by {
            assert(t.to_multiset().count(t[i]) > 0);
            assert(s.contains(t[i]));
            let j = choose|j: int| 0 <= j < s.len() && s[j] == t[i];
        }
    }
    lemma_runs_laws(t);
    let rs = runs(t);
    let m = longest_run(rs);
    lemma_longest_run(rs);
    lemma_runs_of_length_from(rs, m);
    lemma_runs_of_length_complete(rs, m);
    lemma_runs_of_length_increasing(rs, m);
    let f = modes_of(s);
    assert(f == runs_of_length(rs, m));
    lemma_sorted_len(s);
    lemma_mode_counts(s, t, rs, m, f);
}

proof fn lemma_mode_counts(
    s: Seq<Rat>,
    t: Seq<Rat>,
    rs: Seq<(Rat, nat)>,
    m: nat,
    f: Seq<(Rat, nat)>,
)
    requires
        t.to_multiset() == s.to_multiset(),
        s.len() == t.len(),
        forall|i: int| 0 <= i < rs.len() ==> (#[trigger] rs[i]).1 == t.to_multiset().count(rs[i].0),
        forall|k: int|
            0 <= k < t.len() ==> exists|i: int| 0 <= i < rs.len() && #[trigger] rs[i].0 == #[trigger] t[k],
        forall|i: int| 0 <= i < rs.len() ==> (#[trigger] rs[i]).1 <= m,
        rs.len() > 0 ==> exists|i: int| 0 <= i < rs.len() && (#[trigger] rs[i]).1 == m,
        t.len() > 0 ==> rs.len() > 0,
        forall|k: int| 0 <= k < f.len() ==> (#[trigger] f[k]).1 == m && rs.contains(f[k]),
        forall|i: int| 0 <= i < rs.len() && (#[trigger] rs[i]).1 == m ==> f.contains(rs[i]),
        forall|k1: int, k2: int| 0 <= k1 < k2 < f.len() ==> rat_lt(#[trigger] f[k1].0, #[trigger] f[k2].0),
    ensures
        forall|k: int| 0 <= k < f.len() ==> (#[trigger] f[k]).1 == s.to_multiset().count(f[k].0),
        forall|k: int, x: Rat| 0 <= k < f.len() ==> #[trigger] s.to_multiset().count(x) <= (#[trigger] f[k]).1,
        forall|x: Rat|
            s.to_multiset().count(x) > 0 && (forall|y: Rat|
                s.to_multiset().count(y) <= #[trigger] s.to_multiset().count(x)) ==> exists|k: int|
                0 <= k < f.len() && (#[trigger] f[k]).0 == x,
        s.len() > 0 ==> f.len() > 0,
{
    broadcast use vstd::seq_lib::group_to_multiset_ensures;

    assert forall|k: int| 0 <= k < f.len() implies (#[trigger] f[k]).1 == s.to_multiset().count(
        f[k].0,
    ) by {
        let i = choose|i: int| 0 <= i < rs.len() && rs[i] == f[k];
        assert(rs[i].1 == t.to_multiset().count(rs[i].0));
    }
    assert forall|k: int, x: Rat| 0 <= k < f.len() implies #[trigger] s.to_multiset().count(x) <= (
    #[trigger] f[k]).1 by {
        if t.to_multiset().count(x) > 0 {
            assert(t.contains(x));
            let j = choose|j: int| 0 <= j < t.len() && t[j] == x;
            let i = choose|i: int| 0 <= i < rs.len() && #[trigger] rs[i].0 == #[trigger] t[j];
            assert(rs[i].1 == t.to_multiset().count(x));
        }
    }
    assert forall|x: Rat|
        s.to_multiset().count(x) > 0 && (forall|y: Rat|
            s.to_multiset().count(y) <= #[trigger] s.to_multiset().count(x)) implies exists|k: int|
        0 <= k < f.len() && (#[trigger] f[k]).0 == x by {
        assert(t.contains(x));
        let j = choose|j: int| 0 <= j < t.len() && t[j] == x;
        let i = choose|i: int| 0 <= i < rs.len() && #[trigger] rs[i].0 == #[trigger] t[j];
        let w = choose|w: int| 0 <= w < rs.len() && (#[trigger] rs[w]).1 == m;
        assert(rs[w].1 == t.to_multiset().count(rs[w].0));
        assert(s.to_multiset().count(rs[w].0) <= s.to_multiset().count(x));
        assert(rs[i].1 == t.to_multiset().count(x));
        assert(rs[i].1 == m);
        assert(f.contains(rs[i]));
        let k = choose|k: int| 0 <= k < f.len() && f[k] == rs[i];
        assert(f[k].0 == x);
    }
    if s.len() > 0 {
        let w = choose|w: int| 0 <= w < rs.len() && (#[trigger] rs[w]).1 == m;
        assert(f.contains(rs[w]));
    }
}

// ---------------------------------------------------------------------------
// Laws of the quantiles
// ---------------------------------------------------------------------------

/// Normalising keeps the order of values.
proof fn lemma_le_normalize(n1: int, d1: int, n2: int, d2: int)
    requires
        d1 > 0,
        d2 > 0,
    ensures
        rat_le(normalize(n1, d1), normalize(n2, d2)) == (n1 * d2 <= n2 * d1),
        normalize(n1, d1).den > 0,
{
    let a = normalize(n1, d1);
    let b = normalize(n2, d2);
    crate::number::lemma_normalize_value(n1, d1);
    crate::number::lemma_normalize_value(n2, d2);
    let x = a.num * b.den;
    let y = b.num * a.den;
    let k = d1 * d2;
    let w = a.den * b.den;
    assert(k > 0 && w > 0) by (nonlinear_arith)
        requires
            d1 > 0,
            d2 > 0,
            a.den > 0,
            b.den > 0,
            k == d1 * d2,
            w == a.den * b.den,
    ;
    assert(x * k == (n1 * d2) * w) by (nonlinear_arith)
        requires
            a.num * d1 == n1 * a.den,
            x == a.num * b.den,
            k == d1 * d2,
            w == a.den * b.den,
    ;
    assert(y * k == (n2 * d1) * w) by (nonlinear_arith)
        requires
            b.num * d2 == n2 * b.den,
            y == b.num * a.den,
            k == d1 * d2,
            w == a.den * b.den,
    ;
    assert((x <= y) == (n1 * d2 <= n2 * d1)) by (nonlinear_arith)
        requires
            x * k == (n1 * d2) * w,
            y * k == (n2 * d1) * w,
            k > 0,
            w > 0,
    ;
}

/// The position of a quantile: the lower index, the upper index not below
/// it, both within the sorted values, and a fraction in `[0, 1)`.
proof fn lemma_position_bounds(n: nat, q: Rat)
    requires
        n >= 1,
        q.den > 0,
        !rat_lt(q, rat_int(0)),
        !rat_lt(rat_int(1), q),
    ensures
        0 <= lower_index(n, q) <= upper_index(n, q) <= n - 1,
        position_fraction(n, q).den > 0,
        0 <= position_fraction(n, q).num < position_fraction(n, q).den,
{
    lemma_lower_index_bounds(n, q);
    let h = quantile_position(n, q);
    assert(rat_int(n - 1).den * q.den > 0) by (nonlinear_arith)
        requires
            rat_int(n - 1).den == 1,
            q.den > 0,
    ;
    crate::number::lemma_normalize_value(rat_int(n - 1).num * q.num, rat_int(n - 1).den * q.den);
    let k = lower_index(n, q);
    assert(k == h.num / h.den);
    vstd::arithmetic::div_mod::lemma_fundamental_div_mod(h.num, h.den);
    let r = h.num - k * h.den;
    assert(0 <= r < h.den) by {
        vstd::arithmetic::div_mod::lemma_mod_bound(h.num, h.den);
        assert(h.num % h.den == h.num - h.den * (h.num / h.den));
        assert(h.den * k == k * h.den) by (nonlinear_arith);
    }
    let f = position_fraction(n, q);
    assert(h.num * rat_int(k).den - rat_int(k).num * h.den == r) by (nonlinear_arith)
        requires
            rat_int(k).den == 1,
            rat_int(k).num == k,
            r == h.num - k * h.den,
    ;
    assert(h.den * rat_int(k).den == h.den) by (nonlinear_arith)
        requires
            rat_int(k).den == 1,
    ;
    crate::number::lemma_normalize_value(r, h.den);
    assert(0 <= f.num < f.den) by (nonlinear_arith)
        requires
            f.num * h.den == r * f.den,
            0 <= r < h.den,
            f.den > 0,
    ;
}

/// An interpolated value lies between the values it interpolates.
proof fn lemma_interpolation_bounds(lo: Rat, hi: Rat, f: Rat)
    requires
        lo.den > 0,
        hi.den > 0,
        f.den > 0,
        0 <= f.num <= f.den,
        rat_le(lo, hi),
    ensures
        rat_le(lo, rat_add(lo, rat_mul(f, rat_sub(hi, lo)))),
        rat_le(rat_add(lo, rat_mul(f, rat_sub(hi, lo))), hi),
{
    let big_d = hi.num * lo.den - lo.num * hi.den;
    let l = hi.den * lo.den;
    assert(l > 0 && big_d >= 0) by (nonlinear_arith)
        requires
            lo.den > 0,
            hi.den > 0,
            l == hi.den * lo.den,
            big_d == hi.num * lo.den - lo.num * hi.den,
            lo.num * hi.den <= hi.num * lo.den,
    ;
    let d = rat_sub(hi, lo);
    crate::number::lemma_normalize_value(big_d, l);
    assert(d.num >= 0) by (nonlinear_arith)
        requires
            d.num * l == big_d * d.den,
            big_d >= 0,
            l > 0,
            d.den > 0,
    ;
    let fd = f.den * d.den;
    assert(fd > 0) by (nonlinear_arith)
        requires
            f.den > 0,
            d.den > 0,
            fd == f.den * d.den,
    ;
    let m = rat_mul(f, d);
    crate::number::lemma_normalize_value(f.num * d.num, fd);
    assert(m.num >= 0) by (nonlinear_arith)
        requires
            m.num * fd == (f.num * d.num) * m.den,
            f.num >= 0,
            d.num >= 0,
            fd > 0,
            m.den > 0,
    ;
    // m <= d, as the raw inequality m.num * l <= big_d * m.den.
    let p = m.num * l * fd;
    assert(p == f.num * m.den * (d.num * l)) by (nonlinear_arith)
        requires
            p == m.num * l * fd,
            m.num * fd == (f.num * d.num) * m.den,
    ;
    assert(p == f.num * m.den * big_d * d.den) by (nonlinear_arith)
        requires
            p == f.num * m.den * (d.num * l),
            d.num * l == big_d * d.den,
    ;
    assert(f.num * m.den * big_d * d.den <= f.den * m.den * big_d * d.den) by (nonlinear_arith)
        requires
            0 <= f.num <= f.den,
            m.den > 0,
            big_d >= 0,
            d.den > 0,
    ;
    assert(big_d * m.den * fd == f.den * m.den * big_d * d.den) by (nonlinear_arith)
        requires
            fd == f.den * d.den,
    ;
    assert(m.num * l <= big_d * m.den) by (nonlinear_arith)
        requires
            m.num * l * fd <= big_d * m.den * fd,
            fd > 0,
    ;
    // The sum lo + m, compared through its raw fraction.
    let vn = lo.num * m.den + m.num * lo.den;
    let vd = lo.den * m.den;
    assert(vd > 0) by (nonlinear_arith)
        requires
            lo.den > 0,
            m.den > 0,
            vd == lo.den * m.den,
    ;
    crate::rational::lemma_normalize(lo.num, lo.den);
    lemma_le_normalize(lo.num, lo.den, vn, vd);
    lemma_le_normalize(vn, vd, hi.num, hi.den);
    assert(lo.num * vd <= vn * lo.den) by (nonlinear_arith)
        requires
            vn == lo.num * m.den + m.num * lo.den,
            vd == lo.den * m.den,
            m.num >= 0,
            lo.den > 0,
    ;
    let e = lo.num * m.den * hi.den;
    assert(vn * hi.den == e + m.num * l) by (nonlinear_arith)
        requires
            vn == lo.num * m.den + m.num * lo.den,
            e == lo.num * m.den * hi.den,
            l == hi.den * lo.den,
    ;
    assert(big_d * m.den + e == hi.num * vd) by (nonlinear_arith)
        requires
            big_d == hi.num * lo.den - lo.num * hi.den,
            e == lo.num * m.den * hi.den,
            vd == lo.den * m.den,
    ;
    // lo and hi compare as their own normal forms.
    lemma_le_normalize(lo.num, lo.den, lo.num, lo.den);
    lemma_same_order(lo);
    lemma_same_order(hi);
}

/// A fraction compares as its normal form does.
proof fn lemma_same_order(a: Rat)
    requires
        a.den > 0,
    ensures
        forall|b: Rat| b.den > 0 ==> (rat_le(a, b) == rat_le(normalize(a.num, a.den), b)),
        forall|b: Rat| b.den > 0 ==> (rat_le(b, a) == rat_le(b, normalize(a.num, a.den))),
{
    let c = normalize(a.num, a.den);
    crate::number::lemma_normalize_value(a.num, a.den);
    assert forall|b: Rat| b.den > 0 implies (rat_le(a, b) == rat_le(c, b)) by {
        assert((a.num * b.den <= b.num * a.den) == (c.num * b.den <= b.num * c.den))
            by (nonlinear_arith)
            requires
                c.num * a.den == a.num * c.den,
                a.den > 0,
                c.den > 0,
                b.den > 0,
        {
            assert(a.num * b.den * c.den == c.num * b.den * a.den);
            assert(b.num * a.den * c.den == b.num * c.den * a.den);
        }
    }
    assert forall|b: Rat| b.den > 0 implies (rat_le(b, a) == rat_le(b, c)) by {
        assert((b.num * a.den <= a.num * b.den) == (b.num * c.den <= c.num * b.den))
            by (nonlinear_arith)
            requires
                c.num * a.den == a.num * c.den,
                a.den > 0,
                c.den > 0,
                b.den > 0,
        {
            assert(a.num * b.den * c.den == c.num * b.den * a.den);
            assert(b.num * a.den * c.den == b.num * c.den * a.den);
        }
    }
}


/// With no fraction, interpolating or averaging a value with itself gives it.
proof fn lemma_whole_position(lo: Rat, f: Rat)
    requires
        crate::number::reduced(lo),
        f.num == 0,
    ensures
        rat_add(lo, rat_mul(f, rat_sub(lo, lo))) == lo,
        rat_div(rat_add(lo, lo), rat_int(2)) == lo,
{
    assert(f.num * rat_sub(lo, lo).num == 0) by (nonlinear_arith)
        requires
            f.num == 0,
    ;
    crate::rational::lemma_int_reduced(0);
    crate::rational::lemma_add_zero(lo);
    let a = rat_add(lo, lo);
    let dd = lo.den * lo.den;
    assert(dd > 0) by (nonlinear_arith)
        requires
            lo.den > 0,
            dd == lo.den * lo.den,
    ;
    crate::number::lemma_normalize_value(lo.num * lo.den + lo.num * lo.den, dd);
    assert(a.den * 2 > 0);
    assert(a.num * 1 * lo.den == lo.num * (a.den * 2)) by (nonlinear_arith)
        requires
            a.num * dd == (lo.num * lo.den + lo.num * lo.den) * a.den,
            dd == lo.den * lo.den,
            lo.den > 0,
    ;
    assert(a.den * rat_int(2).num == a.den * 2 && a.num * rat_int(2).den == a.num * 1);
    crate::rational::lemma_same_value(a.num * 1, a.den * 2, lo.num, lo.den);
    crate::rational::lemma_normalize_reduced(lo);
}

/// Two ascending sequences in lowest terms holding the same values are the
/// same sequence.
proof fn lemma_ascending_unique(a: Seq<Rat>, b: Seq<Rat>)
    requires
        ascending(a),
        ascending(b),
        all_reduced(a),
        a.to_multiset() == b.to_multiset(),
    ensures
        a == b,
    decreases a.len(),
{
    broadcast use vstd::seq_lib::group_to_multiset_ensures;

    assert(a.len() == a.to_multiset().len());
    assert(b.len() == b.to_multiset().len());
    if a.len() > 0 {
        let n = a.len() - 1;
        let x = a[n];
        let y = b[n];
        assert(b.to_multiset().count(y) > 0);
        assert(a.contains(y));
        let i = choose|i: int| 0 <= i < a.len() && a[i] == y;
        assert(a.to_multiset().count(x) > 0);
        assert(b.contains(x));
        let j = choose|j: int| 0 <= j < b.len() && b[j] == x;
        assert(rat_le(y, x)) by {
            if i < n {
                assert(rat_le(a[i], a[n]));
            } else {
                assert(x.num * x.den <= x.num * x.den);
            }
        }
        assert(rat_le(x, y)) by {
            if j < n {
                assert(rat_le(b[j], b[n]));
            } else {
                assert(y.num * y.den <= y.num * y.den);
            }
        }
        assert(crate::number::reduced(x) && crate::number::reduced(y));
        lemma_le_reduced(x, y);
        lemma_le_reduced(y, x);
        assert(a =~= a.drop_last().push(x));
        assert(b =~= b.drop_last().push(y));
        let ma = a.drop_last().to_multiset();
        let mb = b.drop_last().to_multiset();
        assert(a.to_multiset() == ma.insert(x)) by {
            assert(a.drop_last().push(x).to_multiset() == ma.insert(x));
        }
        assert(b.to_multiset() == mb.insert(x)) by {
            assert(b.drop_last().push(y).to_multiset() == mb.insert(y));
        }
        assert(ma =~= mb) by {
            broadcast use vstd::multiset::group_multiset_axioms;

            assert forall|v: Rat| #[trigger] ma.count(v) == mb.count(v) by {
                assert(ma.insert(x).count(v) == mb.insert(x).count(v));
            }
        }
        assert(ascending(a.drop_last()));
        assert(ascending(b.drop_last()));
        assert(all_reduced(a.drop_last()));
        lemma_ascending_unique(a.drop_last(), b.drop_last());
    } else {
        assert(a =~= b);
    }
}

/// The quantile laws. With `t` the sorted observations, each method's
/// quantile lies between the order statistics at the lower and upper index
/// of the position `(n - 1) q`, so `lower <= linear <= higher` and
/// `lower <= midpoint <= higher`, and between the smallest and the largest
/// observation; `q = 0` gives the smallest and `q = 1` the largest.
pub proof fn lemma_quantile_laws(s: Seq<Rat>, q: Rat, method: Seq<char>)
    requires
        all_reduced(s),
        q.den > 0,
        quantile_result(s, q, method) is Ok,
    ensures
        rat_le(quantile_of(s, q, "lower"@), quantile_of(s, q, method)),
        rat_le(quantile_of(s, q, method), quantile_of(s, q, "higher"@)),
        quantile_of(s, q, "lower"@) == sorted_of(s)[lower_index(s.len(), q)],
        quantile_of(s, q, "higher"@) == sorted_of(s)[upper_index(s.len(), q)],
        rat_le(extreme_of(s, true), quantile_of(s, q, method)),
        rat_le(quantile_of(s, q, method), extreme_of(s, false)),
        q == rat_int(0) ==> quantile_of(s, q, method) == sorted_of(s)[0],
        q == rat_int(1) ==> quantile_of(s, q, method) == sorted_of(s)[s.len() - 1],
{
    broadcast use vstd::seq_lib::group_to_multiset_ensures;

    reveal_strlit("linear");
    reveal_strlit("lower");
    reveal_strlit("higher");
    reveal_strlit("midpoint");
    reveal_strlit("nearest");
    assert("lower"@ != "linear"@ && "higher"@ != "linear"@ && "nearest"@ != "linear"@) by {
        assert("lower"@.len() != "linear"@.len());
        assert("higher"@[0] != "linear"@[0]);
        assert("nearest"@[0] != "linear"@[0]);
    }
    assert("higher"@ != "lower"@ && "nearest"@ != "lower"@ && "nearest"@ != "higher"@) by {
        assert("higher"@[0] != "lower"@[0]);
        assert("nearest"@[0] != "lower"@[0]);
        assert("nearest"@[0] != "higher"@[0]);
    }
    assert("nearest"@ != "midpoint"@ && "lower"@ != "midpoint"@ && "higher"@ != "midpoint"@
        && "linear"@ != "midpoint"@) by {
        assert("nearest"@[0] != "midpoint"@[0]);
        assert("lower"@[0] != "midpoint"@[0]);
        assert("higher"@[0] != "midpoint"@[0]);
        assert("linear"@[0] != "midpoint"@[0]);
    }
    let n = s.len();
    assert(positive_dens(s)) by {
        assert forall|i: int| 0 <= i < s.len() implies (#[trigger] s[i]).den > 0 by {
            assert(crate::number::reduced(s[i]));
        }
    }
    lemma_position_bounds(n, q);
    lemma_sorted_laws(s);
    lemma_sorted_len(s);
    let t = sorted_of(s);
    let li = lower_index(n, q);
    let ui = upper_index(n, q);
    let f = position_fraction(n, q);
    assert forall|k: int| 0 <= k < n implies crate::number::reduced(#[trigger] t[k]) && s.contains(
        t[k],
    ) by {
        assert(t.to_multiset().count(t[k]) > 0);
        assert(s.contains(t[k]));
        let j = choose|j: int| 0 <= j < s.len() && s[j] == t[k];
        assert(crate::number::reduced(s[j]));
    }
    let lo = t[li];
    let hi = t[ui];
    assert(rat_le(lo, hi)) by {
        if li < ui {
            assert(rat_le(t[li], t[ui]));
        } else {
            assert(lo.num * lo.den <= lo.num * lo.den);
        }
    }
    assert(rat_le(lo, lo) && rat_le(hi, hi)) by {
        assert(lo.num * lo.den <= lo.num * lo.den);
        assert(hi.num * hi.den <= hi.num * hi.den);
    }
    let v = quantile_of(s, q, method);
    // the value lies between lo and hi
    if method == "linear"@ {
        lemma_interpolation_bounds(lo, hi, f);
    } else if method == "midpoint"@ {
        lemma_average_bounds(lo, lo, hi, hi);
    } else if method == "nearest"@ {
        let k = nearest_index(n, q);
        assert(k == li || k == ui);
    }
    // and between the extremes
    lemma_extreme_laws(s, true);
    lemma_extreme_laws(s, false);
    let mn = extreme_of(s, true);
    let mx = extreme_of(s, false);
    let a = choose|j: int| 0 <= j < s.len() && s[j] == lo;
    let b = choose|j: int| 0 <= j < s.len() && s[j] == hi;
    assert(rat_le(mn, s[a]) && rat_le(s[b], mx));
    assert(mn.den > 0 && mx.den > 0) by {
        let i0 = choose|j: int| 0 <= j < s.len() && s[j] == mn;
        let i1 = choose|j: int| 0 <= j < s.len() && s[j] == mx;
        assert(s[i0].den > 0 && s[i1].den > 0);
    }
    assert(v.den > 0) by {
        if method == "linear"@ {
            let d = rat_sub(hi, lo);
            crate::rational::lemma_ops_reduced(hi, lo);
            crate::rational::lemma_ops_reduced(f, d);
            crate::rational::lemma_ops_reduced(lo, rat_mul(f, d));
        } else if method == "midpoint"@ {
            crate::rational::lemma_ops_reduced(lo, hi);
            crate::rational::lemma_int_reduced(2);
            crate::rational::lemma_ops_reduced(rat_add(lo, hi), rat_int(2));
        } else if method == "nearest"@ {
            let k = nearest_index(n, q);
            assert(k == li || k == ui);
        }
    }
    lemma_rat_le_trans(mn, lo, v);
    lemma_rat_le_trans(v, hi, mx);
    // the endpoints
    if q == rat_int(0) || q == rat_int(1) {
        let h = quantile_position(n, q);
        if q == rat_int(0) {
            crate::rational::lemma_mul_zero(rat_int(n - 1));
            assert(h == rat_int(0));
            assert(li == 0) by {
                assert(0int / 1int == 0);
            }
        } else {
            crate::number::lemma_rat_mul_int(n - 1, 1);
            assert(h == rat_int(n - 1));
            assert(li == n - 1) by {
                assert((n - 1) as int / 1int == n - 1);
            }
        }
        assert(f.num == 0) by {
            assert(h.num * 1 - li * h.den == 0) by (nonlinear_arith)
                requires
                    h.den == 1,
                    h.num == li,
            ;
        }
        assert(ui == li);
        lemma_whole_position(lo, f);
        if method == "nearest"@ {
            let twice = rat_mul(f, rat_int(2));
            assert(f.num * 2 == 0) by (nonlinear_arith)
                requires
                    f.num == 0,
            ;
            assert(rat_lt(twice, rat_int(1)));
        }
    }
}

/// A quantile depends on the observations only, not on their order: any
/// rearrangement of the observations has the same quantile.
pub proof fn lemma_quantile_permutation(s: Seq<Rat>, r: Seq<Rat>, q: Rat, method: Seq<char>)
    requires
        all_reduced(s),
        s.to_multiset() == r.to_multiset(),
    ensures
        quantile_result(s, q, method) == quantile_result(r, q, method),
        quantile_of(s, q, method) == quantile_of(r, q, method),
{
    broadcast use vstd::seq_lib::group_to_multiset_ensures;

    assert(s.len() == r.len()) by {
        assert(s.len() == s.to_multiset().len());
        assert(r.len() == r.to_multiset().len());
    }
    assert(positive_dens(s)) by {
        assert forall|i: int| 0 <= i < s.len() implies (#[trigger] s[i]).den > 0 by {
            assert(crate::number::reduced(s[i]));
        }
    }
    assert(positive_dens(r)) by {
        assert forall|i: int| 0 <= i < r.len() implies (#[trigger] r[i]).den > 0 by {
            assert(r.to_multiset().count(r[i]) > 0);
            assert(s.contains(r[i]));
            let j = choose|j: int| 0 <= j < s.len() && s[j] == r[i];
            assert(crate::number::reduced(s[j]));
        }
    }
    lemma_sorted_laws(s);
    lemma_sorted_laws(r);
    let t = sorted_of(s);
    lemma_sorted_len(s);
    assert(all_reduced(t)) by {
        assert forall|k: int| 0 <= k < t.len() implies crate::number::reduced(#[trigger] t[k]) by {
            assert(t.to_multiset().count(t[k]) > 0);
            assert(s.contains(t[k]));
            let j = choose|j: int| 0 <= j < s.len() && s[j] == t[k];
            assert(crate::number::reduced(s[j]));
        }
    }
    lemma_ascending_unique(t, sorted_of(r));
}


// ---------------------------------------------------------------------------
// Laws of the covariance
// ---------------------------------------------------------------------------

/// Each value negated.
pub open spec fn negated_all(s: Seq<Rat>) -> Seq<Rat> {
    s.map_values(|x: Rat| crate::number::rat_neg(x))
}

proof fn lemma_rsum_reduced(s: Seq<Rat>)
    requires
        all_reduced(s),
    ensures
        crate::number::reduced(rsum(s)),
    decreases s.len(),
{
    crate::rational::lemma_int_reduced(0);
    if s.len() > 0 {
        lemma_rsum_reduced(s.drop_last());
        assert(crate::number::reduced(s[s.len() - 1]));
        crate::rational::lemma_ops_reduced(rsum(s.drop_last()), s.last());
    }
}

proof fn lemma_rsum_negated(s: Seq<Rat>)
    requires
        all_reduced(s),
    ensures
        rsum(negated_all(s)) == crate::number::rat_neg(rsum(s)),
    decreases s.len(),
{
    if s.len() > 0 {
        lemma_rsum_negated(s.drop_last());
        assert(negated_all(s).drop_last() =~= negated_all(s.drop_last()));
        lemma_rsum_reduced(s.drop_last());
        assert(crate::number::reduced(s[s.len() - 1]));
        crate::rational::lemma_neg_add(rsum(s.drop_last()), s.last());
    }
}

proof fn lemma_div_negated(a: Rat, b: Rat)
    requires
        b.num != 0,
        b.den > 0,
        a.den > 0,
    ensures
        rat_div(crate::number::rat_neg(a), b) == crate::number::rat_neg(rat_div(a, b)),
{
    assert(a.den * b.num != 0) by (nonlinear_arith)
        requires
            a.den > 0,
            b.num != 0,
    ;
    crate::rational::lemma_neg_normalize(a.num * b.den, a.den * b.num);
    assert((-a.num) * b.den == -(a.num * b.den)) by (nonlinear_arith);
}

proof fn lemma_mean_negated(s: Seq<Rat>)
    requires
        all_reduced(s),
        s.len() > 0,
    ensures
        mean_of(negated_all(s)) == crate::number::rat_neg(mean_of(s)),
{
    lemma_rsum_negated(s);
    lemma_rsum_reduced(s);
    lemma_div_negated(rsum(s), rat_int(s.len() as int));
}

proof fn lemma_products_negated(xs: Seq<Rat>, ys: Seq<Rat>, mx: Rat, my: Rat, k: nat)
    requires
        all_reduced(xs),
        all_reduced(ys),
        crate::number::reduced(mx),
        crate::number::reduced(my),
        k <= xs.len(),
        k <= ys.len(),
    ensures
        products_about(xs, negated_all(ys), mx, crate::number::rat_neg(my), k)
            == crate::number::rat_neg(products_about(xs, ys, mx, my, k)),
        crate::number::reduced(products_about(xs, ys, mx, my, k)),
    decreases k,
{
    crate::rational::lemma_int_reduced(0);
    if k > 0 {
        let k1 = (k - 1) as nat;
        lemma_products_negated(xs, ys, mx, my, k1);
        let x = xs[k1 as int];
        let y = ys[k1 as int];
        assert(crate::number::reduced(x) && crate::number::reduced(y));
        assert(negated_all(ys)[k1 as int] == crate::number::rat_neg(y));
        let dx = rat_sub(x, mx);
        let dy = rat_sub(y, my);
        crate::rational::lemma_ops_reduced(x, mx);
        crate::rational::lemma_ops_reduced(y, my);
        // (-y) - (-my) == -(y - my)
        crate::rational::lemma_sub_is_add_neg(crate::number::rat_neg(y), crate::number::rat_neg(my));
        crate::rational::lemma_sub_is_add_neg(y, my);
        crate::rational::lemma_neg_reduced(my);
        crate::rational::lemma_neg_add(y, crate::number::rat_neg(my));
        assert(crate::number::rat_neg(crate::number::rat_neg(my)) == my);
        crate::rational::lemma_mul_neg(dx, dy);
        let p = products_about(xs, ys, mx, my, k1);
        crate::rational::lemma_ops_reduced(dx, dy);
        crate::rational::lemma_neg_add(p, rat_mul(dx, dy));
        crate::rational::lemma_ops_reduced(p, rat_mul(dx, dy));
    }
}

/// Negating one series negates the covariance: each product of deviations is
/// signed, so `cov(xs, -ys) == -cov(xs, ys)`.
pub proof fn lemma_covariance_negated(xs: Seq<Rat>, ys: Seq<Rat>, ddof: nat)
    requires
        all_reduced(xs),
        all_reduced(ys),
        xs.len() > ddof,
        ys.len() > 0,
    ensures
        covariance_of(xs, negated_all(ys), ddof) == crate::number::rat_neg(
            covariance_of(xs, ys, ddof),
        ),
{
    lemma_rsum_reduced(xs);
    lemma_rsum_reduced(ys);
    crate::rational::lemma_int_reduced(xs.len() as int);
    crate::rational::lemma_int_reduced(ys.len() as int);
    crate::rational::lemma_ops_reduced(rsum(xs), rat_int(xs.len() as int));
    crate::rational::lemma_ops_reduced(rsum(ys), rat_int(ys.len() as int));
    lemma_mean_negated(ys);
    let n = min_len(xs.len(), ys.len());
    lemma_products_negated(xs, ys, mean_of(xs), mean_of(ys), n);
    lemma_div_negated(
        products_about(xs, ys, mean_of(xs), mean_of(ys), n),
        rat_int(xs.len() - ddof),
    );
}

proof fn lemma_products_self(s: Seq<Rat>, m: Rat, k: nat)
    requires
        k <= s.len(),
    ensures
        products_about(s, s, m, m, k) == squares_about(s.subrange(0, k as int), m),
    decreases k,
{
    if k > 0 {
        lemma_products_self(s, m, (k - 1) as nat);
        assert(s.subrange(0, k as int).drop_last() =~= s.subrange(0, k - 1));
    }
}

/// The covariance of a series with itself is its variance.
pub proof fn lemma_covariance_self(s: Seq<Rat>, ddof: nat)
    ensures
        covariance_of(s, s, ddof) == variance_of(s, ddof),
{
    lemma_products_self(s, mean_of(s), s.len());
    assert(s.subrange(0, s.len() as int) =~= s);
}


proof fn lemma_products_swapped(xs: Seq<Rat>, ys: Seq<Rat>, mx: Rat, my: Rat, k: nat)
    requires
        k <= xs.len(),
        k <= ys.len(),
    ensures
        products_about(xs, ys, mx, my, k) == products_about(ys, xs, my, mx, k),
    decreases k,
{
    if k > 0 {
        let k1 = (k - 1) as nat;
        lemma_products_swapped(xs, ys, mx, my, k1);
        crate::rational::lemma_mul_comm(rat_sub(xs[k1 as int], mx), rat_sub(ys[k1 as int], my));
    }
}

/// Covariance is symmetric: `cov(xs, ys) == cov(ys, xs)` for series of one
/// length.
pub proof fn lemma_covariance_symmetric(xs: Seq<Rat>, ys: Seq<Rat>, ddof: nat)
    requires
        xs.len() == ys.len(),
    ensures
        covariance_of(xs, ys, ddof) == covariance_of(ys, xs, ddof),
{
    lemma_products_swapped(xs, ys, mean_of(xs), mean_of(ys), xs.len());
}

proof fn lemma_unit_sums(vs: Seq<Rat>, ws: Seq<Rat>, k: nat)
    requires
        all_reduced(vs),
        k <= vs.len(),
        k <= ws.len(),
        forall|i: int| 0 <= i < ws.len() ==> #[trigger] ws[i] == rat_int(1),
    ensures
        weighted_sum(vs, ws, k) == rsum(vs.subrange(0, k as int)),
        rsum(ws.subrange(0, k as int)) == rat_int(k as int),
    decreases k,
{
    if k > 0 {
        let k1 = (k - 1) as nat;
        lemma_unit_sums(vs, ws, k1);
        assert(vs.subrange(0, k as int).drop_last() =~= vs.subrange(0, k1 as int));
        assert(ws.subrange(0, k as int).drop_last() =~= ws.subrange(0, k1 as int));
        assert(crate::number::reduced(vs[k1 as int]));
        crate::rational::lemma_mul_one(vs[k1 as int]);
        crate::rational::lemma_int_reduced(k as int);
        crate::rational::lemma_normalize_reduced(rat_int(k as int));
        assert(k1 * 1 + 1 * 1 == k && 1 * 1 == 1);
    }
}

/// With every weight one, of either kind, the weighted mean is the plain
/// mean.
pub proof fn lemma_unit_weights_mean(vs: Seq<Rat>, ws: Seq<Rat>, weight_type: Seq<char>)
    requires
        all_reduced(vs),
        vs.len() > 0,
        ws.len() == vs.len(),
        forall|i: int| 0 <= i < ws.len() ==> #[trigger] ws[i] == rat_int(1),
        weight_type == "frequency"@ || weight_type == "reliability"@,
    ensures
        weighted_mean_result(vs, ws, weight_type) == Ok::<Rat, ErrorCode>(mean_of(vs)),
{
    lemma_unit_sums(vs, ws, vs.len());
    assert(vs.subrange(0, vs.len() as int) =~= vs);
    assert(ws.subrange(0, ws.len() as int) =~= ws);
    let frequency = weight_type == "frequency"@;
    assert forall|i: int| 0 <= i < ws.len() implies !bad_weight(#[trigger] ws[i], frequency) by {
        assert(ws[i] == rat_int(1));
    }
}

/// Every weight multiplied by `k`.
pub open spec fn scaled(ws: Seq<Rat>, k: int) -> Seq<Rat> {
    ws.map_values(|w: Rat| rat_mul(rat_int(k), w))
}

proof fn lemma_weighted_sum_scaled(vs: Seq<Rat>, ws: Seq<Rat>, k: int, j: nat)
    requires
        all_reduced(vs),
        all_reduced(ws),
        j <= vs.len(),
        j <= ws.len(),
    ensures
        weighted_sum(vs, scaled(ws, k), j) == rat_mul(rat_int(k), weighted_sum(vs, ws, j)),
        crate::number::reduced(weighted_sum(vs, ws, j)),
    decreases j,
{
    let kk = rat_int(k);
    crate::rational::lemma_int_reduced(k);
    crate::rational::lemma_int_reduced(0);
    crate::rational::lemma_mul_zero(kk);
    if j > 0 {
        let j1 = (j - 1) as nat;
        lemma_weighted_sum_scaled(vs, ws, k, j1);
        let v = vs[j1 as int];
        let w = ws[j1 as int];
        assert(crate::number::reduced(v) && crate::number::reduced(w));
        assert(scaled(ws, k)[j1 as int] == rat_mul(kk, w));
        let sw = weighted_sum(vs, ws, j1);
        crate::rational::lemma_mul_assoc(v, kk, w);
        crate::rational::lemma_mul_comm(v, kk);
        crate::rational::lemma_mul_assoc(kk, v, w);
        crate::rational::lemma_ops_reduced(v, w);
        crate::rational::lemma_mul_distributes(kk, sw, rat_mul(v, w));
        crate::rational::lemma_ops_reduced(sw, rat_mul(v, w));
    }
}

proof fn lemma_rsum_scaled(ws: Seq<Rat>, k: int)
    requires
        all_reduced(ws),
    ensures
        rsum(scaled(ws, k)) == rat_mul(rat_int(k), rsum(ws)),
    decreases ws.len(),
{
    let kk = rat_int(k);
    crate::rational::lemma_int_reduced(k);
    crate::rational::lemma_mul_zero(kk);
    if ws.len() > 0 {
        let d = ws.drop_last();
        assert(all_reduced(d)) by {
            assert forall|i: int| 0 <= i < d.len() implies crate::number::reduced(#[trigger] d[i]) by {
                assert(d[i] == ws[i]);
            }
        }
        lemma_rsum_scaled(d, k);
        assert(scaled(ws, k).drop_last() =~= scaled(d, k));
        lemma_rsum_reduced(d);
        assert(crate::number::reduced(ws[ws.len() - 1]));
        crate::rational::lemma_mul_distributes(kk, rsum(d), ws.last());
    }
}

/// Scaling numerator and denominator by the same positive whole number keeps
/// the quotient.
proof fn lemma_div_scaled(a: Rat, b: Rat, k: int)
    requires
        crate::number::reduced(a),
        crate::number::reduced(b),
        b.num != 0,
        k > 0,
    ensures
        rat_div(rat_mul(rat_int(k), a), rat_mul(rat_int(k), b)) == rat_div(a, b),
{
    crate::rational::lemma_normalize_reduced(a);
    crate::rational::lemma_normalize_reduced(b);
    assert(k * b.num != 0) by (nonlinear_arith)
        requires
            k > 0,
            b.num != 0,
    ;
    assert(1 * a.den == a.den && 1 * b.den == b.den);
    crate::rational::lemma_div_normalized(k * a.num, a.den, k * b.num, b.den);
    assert(a.den * b.num != 0) by (nonlinear_arith)
        requires
            a.den > 0,
            b.num != 0,
    ;
    assert(((k * a.num) * b.den) * (a.den * b.num) == (a.num * b.den) * (a.den * (k * b.num)))
        by (nonlinear_arith);
    assert(a.den * (k * b.num) != 0) by (nonlinear_arith)
        requires
            a.den > 0,
            k * b.num != 0,
    ;
    crate::rational::lemma_same_value(
        (k * a.num) * b.den,
        a.den * (k * b.num),
        a.num * b.den,
        a.den * b.num,
    );
}

/// Multiplying every weight by the same positive whole number leaves the
/// weighted mean unchanged: only the weights' proportions count.
pub proof fn lemma_weighted_mean_scaled(vs: Seq<Rat>, ws: Seq<Rat>, weight_type: Seq<char>, k: int)
    requires
        all_reduced(vs),
        all_reduced(ws),
        k > 0,
        weighted_mean_result(vs, ws, weight_type) is Ok,
    ensures
        weighted_mean_result(vs, scaled(ws, k), weight_type) == weighted_mean_result(
            vs,
            ws,
            weight_type,
        ),
{
    let frequency = weight_type == "frequency"@;
    let sw = scaled(ws, k);
    assert forall|i: int| 0 <= i < sw.len() implies !bad_weight(#[trigger] sw[i], frequency) by {
        let w = ws[i];
        assert(!bad_weight(w, frequency));
        assert(crate::number::reduced(w));
        let r = sw[i];
        assert(r == crate::number::normalize(k * w.num, 1 * w.den));
        crate::rational::lemma_normalize(k * w.num, 1 * w.den);
        assert(k * w.num >= 0) by (nonlinear_arith)
            requires
                k > 0,
                w.num >= 0,
        ;
        assert(r.num >= 0) by (nonlinear_arith)
            requires
                r.num * (1 * w.den) == (k * w.num) * r.den,
                k * w.num >= 0,
                w.den > 0,
                r.den > 0,
        ;
        if frequency {
            assert(w.den == 1);
            if k * w.num != 0 {
                assert(crate::number::gcd(crate::number::abs(k * w.num) as nat, 1) == crate::number::gcd(
                    1,
                    (crate::number::abs(k * w.num) as nat) % 1,
                ));
                assert(crate::number::gcd(1, 0) == 1);
            }
        }
    }
    lemma_rsum_reduced(ws);
    lemma_rsum_scaled(ws, k);
    lemma_weighted_sum_scaled(vs, ws, k, vs.len());
    let total = rsum(ws);
    crate::rational::lemma_normalize(k * total.num, 1 * total.den);
    assert(rsum(sw).num != 0) by {
        let r = rsum(sw);
        assert(k * total.num != 0) by (nonlinear_arith)
            requires
                k > 0,
                total.num != 0,
        ;
        if r.num == 0 {
            assert(r.num * (1 * total.den) == 0) by (nonlinear_arith)
                requires
                    r.num == 0,
            ;
            assert((k * total.num) * r.den != 0) by (nonlinear_arith)
                requires
                    k * total.num != 0,
                    r.den > 0,
            ;
        }
    }
    lemma_div_scaled(weighted_sum(vs, ws, vs.len()), total, k);
}

// ---------------------------------------------------------------------------
// The nearest quantile
// ---------------------------------------------------------------------------

/// Strict order of normal forms is the strict order of the raw fractions.
proof fn lemma_lt_normalize(n1: int, d1: int, n2: int, d2: int)
    requires
        d1 > 0,
        d2 > 0,
    ensures
        rat_lt(normalize(n1, d1), normalize(n2, d2)) == (n1 * d2 < n2 * d1),
{
    lemma_le_normalize(n2, d2, n1, d1);
}

/// The `nearest` quantile is the order statistic at an index `k` within half
/// a step of the position `h = (n - 1) q`: `|k - h| <= 1/2`, written over
/// the denominator of `q`.
pub proof fn lemma_nearest_quantile(s: Seq<Rat>, q: Rat)
    requires
        all_reduced(s),
        q.den > 0,
        quantile_result(s, q, "nearest"@) is Ok,
    ensures
        exists|k: int|
            0 <= k < s.len() && quantile_of(s, q, "nearest"@) == sorted_of(s)[k] && 2
                * crate::number::abs(k * q.den - (s.len() - 1) * q.num) <= q.den,
{
    reveal_strlit("linear");
    reveal_strlit("lower");
    reveal_strlit("higher");
    reveal_strlit("midpoint");
    reveal_strlit("nearest");
    assert("nearest"@ != "linear"@ && "nearest"@ != "lower"@ && "nearest"@ != "higher"@
        && "nearest"@ != "midpoint"@) by {
        assert("nearest"@[0] != "linear"@[0]);
        assert("nearest"@[0] != "lower"@[0]);
        assert("nearest"@[0] != "higher"@[0]);
        assert("nearest"@[0] != "midpoint"@[0]);
    }
    let n = s.len();
    lemma_position_bounds(n, q);
    lemma_lower_index_bounds(n, q);
    let nm = rat_int(n - 1);
    let big_n = nm.num * q.num;
    assert(nm.den * q.den == q.den && big_n == (n - 1) * q.num) by (nonlinear_arith)
        requires
            nm.den == 1,
            nm.num == n - 1,
            big_n == nm.num * q.num,
    ;
    let h = quantile_position(n, q);
    crate::number::lemma_normalize_value(big_n, q.den);
    assert(h.num * q.den == big_n * h.den);
    let lo = lower_index(n, q);
    vstd::arithmetic::div_mod::lemma_fundamental_div_mod(h.num, h.den);
    vstd::arithmetic::div_mod::lemma_mod_bound(h.num, h.den);
    let r = h.num - lo * h.den;
    assert(0 <= r < h.den) by {
        assert(h.num % h.den == h.num - h.den * (h.num / h.den));
        assert(h.den * lo == lo * h.den) by (nonlinear_arith);
    }
    let f = position_fraction(n, q);
    assert(h.num * rat_int(lo).den - rat_int(lo).num * h.den == r && h.den * rat_int(lo).den
        == h.den) by (nonlinear_arith)
        requires
            rat_int(lo).den == 1,
            rat_int(lo).num == lo,
            r == h.num - lo * h.den,
    ;
    crate::number::lemma_normalize_value(r, h.den);
    assert(f.num * h.den == r * f.den);
    let twice = rat_mul(f, rat_int(2));
    assert(f.num * rat_int(2).num == f.num * 2 && f.den * rat_int(2).den == f.den)
        by (nonlinear_arith)
        requires
            rat_int(2).num == 2,
            rat_int(2).den == 1,
    ;
    crate::rational::lemma_int_reduced(1);
    crate::rational::lemma_normalize_reduced(rat_int(1));
    lemma_lt_normalize(f.num * 2, f.den, 1, 1);
    lemma_lt_normalize(1, 1, f.num * 2, f.den);
    // Compare 2r with the denominator of h.
    assert((f.num * 2 * 1 < 1 * f.den) == (2 * r < h.den)) by (nonlinear_arith)
        requires
            f.num * h.den == r * f.den,
            f.den > 0,
            h.den > 0,
    ;
    assert((1 * f.den < f.num * 2 * 1) == (h.den < 2 * r)) by (nonlinear_arith)
        requires
            f.num * h.den == r * f.den,
            f.den > 0,
            h.den > 0,
    ;
    // The position does not pass the last index.
    assert(h.num <= (n - 1) * h.den) by {
        assert(h.num / h.den <= n - 1);
        assert(0 <= q.num <= q.den);
        assert(0 <= big_n <= (n - 1) * q.den) by (nonlinear_arith)
            requires
                big_n == (n - 1) * q.num,
                0 <= q.num <= q.den,
                n >= 1,
        ;
        assert(h.num <= (n - 1) * h.den) by (nonlinear_arith)
            requires
                h.num * q.den == big_n * h.den,
                big_n <= (n - 1) * q.den,
                q.den > 0,
                h.den > 0,
        ;
    }
    if r > 0 {
        assert(f.num != 0) by (nonlinear_arith)
            requires
                f.num * h.den == r * f.den,
                r > 0,
                f.den > 0,
        ;
        assert(lo < n - 1) by (nonlinear_arith)
            requires
                h.num == lo * h.den + r,
                r > 0,
                h.num <= (n - 1) * h.den,
                h.den > 0,
        ;
        assert(upper_index(n, q) == lo + 1);
    }
    let k = nearest_index(n, q);
    // The chosen index is within half a step of h, measured in h's units.
    assert(2 * crate::number::abs(k * h.den - h.num) <= h.den) by {
        if k == lo {
            assert(k * h.den - h.num == -r);
            if r > 0 {
                assert(!rat_lt(rat_int(1), twice) || rat_lt(twice, rat_int(1)) || lo % 2 == 0
                    || upper_index(n, q) == lo);
            }
        } else {
            assert(r > 0);
            assert(k == lo + 1);
            assert(k * h.den - h.num == h.den - r) by (nonlinear_arith)
                requires
                    k == lo + 1,
                    r == h.num - lo * h.den,
            ;
        }
    }
    // and so within half a step of (n - 1) q, in q's units.
    let x = k * h.den - h.num;
    let y = k * q.den - big_n;
    assert(y * h.den == x * q.den) by (nonlinear_arith)
        requires
            x == k * h.den - h.num,
            y == k * q.den - big_n,
            h.num * q.den == big_n * h.den,
    ;
    assert(2 * crate::number::abs(y) <= q.den) by (nonlinear_arith)
        requires
            y * h.den == x * q.den,
            2 * crate::number::abs(x) <= h.den,
            h.den > 0,
            q.den > 0,
            crate::number::abs(x) == (if x < 0 {
                -x
            } else {
                x
            }),
            crate::number::abs(y) == (if y < 0 {
                -y
            } else {
                y
            }),
    ;
    assert(0 <= k < n);
    assert(quantile_of(s, q, "nearest"@) == sorted_of(s)[k]);
}

/// Two halves make the whole.
proof fn lemma_halves(x: Rat)
    requires
        crate::number::reduced(x),
    ensures
        rat_add(rat_div(x, rat_int(2)), rat_div(x, rat_int(2))) == x,
{
    let y = rat_div(x, rat_int(2));
    crate::rational::lemma_normalize(x.num * 1, x.den * 2);
    assert(y.num * (x.den * 2) == (x.num * 1) * y.den);
    assert((y.num * y.den + y.num * y.den) * x.den == x.num * (y.den * y.den)) by (nonlinear_arith)
        requires
            y.num * (x.den * 2) == (x.num * 1) * y.den,
    ;
    assert(y.den * y.den != 0) by (nonlinear_arith)
        requires
            y.den > 0,
    ;
    crate::rational::lemma_same_value(y.num * y.den + y.num * y.den, y.den * y.den, x.num, x.den);
    crate::rational::lemma_normalize_reduced(x);
}

/// How the methods relate: the `midpoint` quantile is the average of the
/// `lower` and `higher` ones, the `linear` one lies the fraction `h - floor(h)`
/// of the way from `lower` to `higher` (with `h = (n - 1) q`), and where `h` is
/// whole both agree with `lower`, which is then `higher` too.
pub proof fn lemma_quantile_methods(s: Seq<Rat>, q: Rat)
    requires
        all_reduced(s),
        q.den > 0,
        quantile_result(s, q, "linear"@) is Ok,
    ensures
        ({
            let lower = quantile_of(s, q, "lower"@);
            let higher = quantile_of(s, q, "higher"@);
            let mid = quantile_of(s, q, "midpoint"@);
            let linear = quantile_of(s, q, "linear"@);
            let f = position_fraction(s.len(), q);
            &&& rat_add(mid, mid) == rat_add(lower, higher)
            &&& linear == rat_add(lower, rat_mul(f, rat_sub(higher, lower)))
            &&& f.num == 0 ==> linear == lower && mid == lower && higher == lower
        }),
{
    broadcast use vstd::seq_lib::group_to_multiset_ensures;

    reveal_strlit("linear");
    reveal_strlit("lower");
    reveal_strlit("higher");
    reveal_strlit("midpoint");
    assert("lower"@ != "linear"@ && "higher"@ != "linear"@ && "higher"@ != "lower"@) by {
        assert("lower"@.len() != "linear"@.len());
        assert("higher"@[0] != "linear"@[0]);
        assert("higher"@[0] != "lower"@[0]);
    }
    assert("lower"@ != "midpoint"@ && "higher"@ != "midpoint"@ && "linear"@ != "midpoint"@) by {
        assert("lower"@[0] != "midpoint"@[0]);
        assert("higher"@[0] != "midpoint"@[0]);
        assert("linear"@[0] != "midpoint"@[0]);
    }
    let n = s.len();
    lemma_position_bounds(n, q);
    lemma_sorted_laws(s);
    lemma_sorted_len(s);
    let t = sorted_of(s);
    let li = lower_index(n, q);
    let ui = upper_index(n, q);
    let f = position_fraction(n, q);
    assert forall|k: int| 0 <= k < n implies crate::number::reduced(#[trigger] t[k]) by {
        assert(t.to_multiset().count(t[k]) > 0);
        assert(s.contains(t[k]));
        let j = choose|j: int| 0 <= j < s.len() && s[j] == t[k];
        assert(crate::number::reduced(s[j]));
    }
    let lo = t[li];
    let hi = t[ui];
    assert(quantile_of(s, q, "lower"@) == lo);
    assert(quantile_of(s, q, "higher"@) == hi);
    let x = rat_add(lo, hi);
    crate::rational::lemma_ops_reduced(lo, hi);
    lemma_halves(x);
    if f.num == 0 {
        lemma_whole_position(lo, f);
    }
}

} // verus!
