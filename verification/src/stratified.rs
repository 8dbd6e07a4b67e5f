//! The structure of stratified experiment inputs.
//!
//! A stratified experiment lists strata by name; each stratum has a treatment
//! and a control arm, and each arm a number of people assigned and a count per
//! outcome category. Outcome values and target weights are binary64 numbers
//! and stay with the caller. What decides the structure is handled here:
//! stratum names are unique, the counts of an arm add up to the number
//! assigned, outcome categories fall into sign classes, and pooling two
//! experiments matches strata by name and merges the categories of equal
//! outcome values (identified by a key, the bit pattern of the value with
//! both zeros identified).
use vstd::prelude::*;
use crate::error::{EngineError, ErrorCode};
use crate::text::str_eq;

verus! {

// ---------------------------------------------------------------------------
// Names
// ---------------------------------------------------------------------------

/// The first `n` names are pairwise distinct.
pub open spec fn distinct_names(names: Seq<String>, n: int) -> bool {
    forall|j: int, k: int| 0 <= j < k < n ==> names[j]@ != names[k]@
}

/// Position of the first name that repeats an earlier one, if any.
pub fn first_repeated_name(names: &Vec<String>) -> (r: Option<usize>)
    ensures
        match r {
            Some(i) => {
                &&& i < names.len()
                &&& distinct_names(names@, i as int)
                &&& exists|j: int| 0 <= j < i && names@[j]@ == names@[i as int]@
            },
            None => distinct_names(names@, names.len() as int),
        },
{
    let mut k: usize = 0;
    while k < names.len()
        invariant
            k <= names.len(),
            distinct_names(names@, k as int),
        decreases names.len() - k,
    {
        let mut j: usize = 0;
        while j < k
            invariant
                j <= k < names.len(),
                distinct_names(names@, k as int),
                forall|m: int| 0 <= m < j ==> names@[m]@ != names@[k as int]@,
            decreases k - j,
        {
            if str_eq(names[j].as_str(), names[k].as_str()) {
                assert(names@[j as int]@ == names@[k as int]@);
                return Some(k);
            }
            j = j + 1;
        }
        k = k + 1;
    }
    None
}

// ---------------------------------------------------------------------------
// Counts
// ---------------------------------------------------------------------------

/// Total of a list of counts.
pub open spec fn count_total(counts: Seq<u64>) -> int
    decreases counts.len(),
{
    if counts.len() == 0 {
        0
    } else {
        count_total(counts.drop_last()) + counts.last()
    }
}

proof fn lemma_count_total_prefix(counts: Seq<u64>, i: int, j: int)
    requires
        0 <= i <= j <= counts.len(),
    ensures
        0 <= count_total(counts.subrange(0, i)) <= count_total(counts.subrange(0, j)),
    decreases j - i,
{
    if i < j {
        lemma_count_total_prefix(counts, i, j - 1);
        assert(counts.subrange(0, j).drop_last() =~= counts.subrange(0, j - 1));
    } else {
        lemma_count_total_nonnegative(counts.subrange(0, i));
    }
}

proof fn lemma_count_total_nonnegative(counts: Seq<u64>)
    ensures
        count_total(counts) >= 0,
    decreases counts.len(),
{
    if counts.len() > 0 {
        lemma_count_total_nonnegative(counts.drop_last());
    }
}

/// Whether the counts of an arm add up exactly to the number assigned.
pub fn counts_sum_to(counts: &Vec<u64>, assigned: u64) -> (r: bool)
    ensures
        r == (count_total(counts@) == assigned),
{
    let mut sum: u64 = 0;
    let mut i: usize = 0;
    while i < counts.len()
        invariant
            i <= counts.len(),
            sum == count_total(counts@.subrange(0, i as int)),
            sum <= assigned,
        decreases counts.len() - i,
    {
        assert(counts@.subrange(0, i + 1).drop_last() =~= counts@.subrange(0, i as int));
        if counts[i] > assigned - sum {
            proof {
                lemma_count_total_prefix(counts@, i + 1, counts.len() as int);
                assert(counts@.subrange(0, counts.len() as int) =~= counts@);
            }
            return false;
        }
        sum = sum + counts[i];
        i = i + 1;
    }
    assert(counts@.subrange(0, counts.len() as int) =~= counts@);
    sum == assigned
}

/// The sign of an outcome value.
#[derive(Clone, Copy, Debug, PartialEq, Eq, Structural)]
pub enum ValueSign {
    Positive,
    Negative,
    Zero,
}

/// Total count of the categories whose value has sign `s`.
pub open spec fn sign_total(signs: Seq<ValueSign>, counts: Seq<u64>, s: ValueSign) -> int
    decreases counts.len(),
{
    if counts.len() == 0 {
        0
    } else {
        sign_total(signs.drop_last(), counts.drop_last(), s) + if signs.last() == s {
            counts.last() as int
        } else {
            0
        }
    }
}

proof fn lemma_sign_totals(signs: Seq<ValueSign>, counts: Seq<u64>)
    requires
        signs.len() == counts.len(),
    ensures
        sign_total(signs, counts, ValueSign::Positive) >= 0,
        sign_total(signs, counts, ValueSign::Negative) >= 0,
        sign_total(signs, counts, ValueSign::Zero) >= 0,
        sign_total(signs, counts, ValueSign::Positive) + sign_total(
            signs,
            counts,
            ValueSign::Negative,
        ) + sign_total(signs, counts, ValueSign::Zero) == count_total(counts),
    decreases counts.len(),
{
    if counts.len() > 0 {
        lemma_sign_totals(signs.drop_last(), counts.drop_last());
    }
}

/// Counts of the positive, negative and zero outcome categories of an arm.
pub fn sign_counts(signs: &Vec<ValueSign>, counts: &Vec<u64>) -> (r: (u64, u64, u64))
    requires
        signs.len() == counts.len(),
        count_total(counts@) <= u64::MAX,
    ensures
        r.0 == sign_total(signs@, counts@, ValueSign::Positive),
        r.1 == sign_total(signs@, counts@, ValueSign::Negative),
        r.2 == sign_total(signs@, counts@, ValueSign::Zero),
        r.0 + r.1 + r.2 == count_total(counts@),
{
    let mut positive: u64 = 0;
    let mut negative: u64 = 0;
    let mut zero: u64 = 0;
    let mut i: usize = 0;
    while i < counts.len()
        invariant
            i <= counts.len(),
            signs.len() == counts.len(),
            count_total(counts@) <= u64::MAX,
            positive == sign_total(
                signs@.subrange(0, i as int),
                counts@.subrange(0, i as int),
                ValueSign::Positive,
            ),
            negative == sign_total(
                signs@.subrange(0, i as int),
                counts@.subrange(0, i as int),
                ValueSign::Negative,
            ),
            zero == sign_total(
                signs@.subrange(0, i as int),
                counts@.subrange(0, i as int),
                ValueSign::Zero,
            ),
        decreases counts.len() - i,
    {
        let ghost ss = signs@.subrange(0, i + 1);
        let ghost cs = counts@.subrange(0, i + 1);
        assert(ss.drop_last() =~= signs@.subrange(0, i as int));
        assert(cs.drop_last() =~= counts@.subrange(0, i as int));
        proof {
            lemma_sign_totals(ss, cs);
            lemma_count_total_prefix(counts@, i + 1, counts.len() as int);
            assert(counts@.subrange(0, counts.len() as int) =~= counts@);
        }
        match signs[i] {
            ValueSign::Positive => {
                positive = positive + counts[i];
            },
            ValueSign::Negative => {
                negative = negative + counts[i];
            },
            ValueSign::Zero => {
                zero = zero + counts[i];
            },
        }
        i = i + 1;
    }
    assert(signs@.subrange(0, counts.len() as int) =~= signs@);
    assert(counts@.subrange(0, counts.len() as int) =~= counts@);
    proof {
        lemma_sign_totals(signs@, counts@);
    }
    (positive, negative, zero)
}

// ---------------------------------------------------------------------------
// Pooling two experiments
// ---------------------------------------------------------------------------

/// Total count of the categories with outcome key `key`.
pub open spec fn key_total(s: Seq<(u64, u64)>, key: u64) -> int
    decreases s.len(),
{
    if s.len() == 0 {
        0
    } else {
        key_total(s.drop_last(), key) + if s.last().0 == key {
            s.last().1 as int
        } else {
            0
        }
    }
}

/// Total count of all categories.
pub open spec fn pair_total(s: Seq<(u64, u64)>) -> int
    decreases s.len(),
{
    if s.len() == 0 {
        0
    } else {
        pair_total(s.drop_last()) + s.last().1
    }
}

proof fn lemma_key_total_bounds(s: Seq<(u64, u64)>, key: u64)
    ensures
        0 <= key_total(s, key) <= pair_total(s),
        (forall|k: int| 0 <= k < s.len() ==> (#[trigger] s[k]).0 != key) ==> key_total(s, key)
            == 0,
    decreases s.len(),
{
    if s.len() > 0 {
        lemma_key_total_bounds(s.drop_last(), key);
        if forall|k: int| 0 <= k < s.len() ==> (#[trigger] s[k]).0 != key {
            assert forall|k: int| 0 <= k < s.drop_last().len() implies (
            #[trigger] s.drop_last()[k]).0 != key by {
                assert(s.drop_last()[k] == s[k]);
            }
            assert(s[s.len() - 1].0 != key);
        }
    }
}

proof fn lemma_pair_total_prefix(s: Seq<(u64, u64)>, i: int)
    requires
        0 <= i <= s.len(),
    ensures
        pair_total(s.subrange(0, i)) <= pair_total(s),
    decreases s.len() - i,
{
    if i < s.len() {
        lemma_pair_total_prefix(s, i + 1);
        assert(s.subrange(0, i + 1).drop_last() =~= s.subrange(0, i));
    } else {
        assert(s.subrange(0, i) =~= s);
    }
}

/// A merged entry `(key, first, total)` after the first `n` entries of `all`:
/// `first` is the first position of `key` and `total` its total count.
pub open spec fn entry_ok(e: (u64, usize, u64), all: Seq<(u64, u64)>, n: int) -> bool {
    &&& e.1 < n
    &&& all[e.1 as int].0 == e.0
    &&& forall|k: int| 0 <= k < e.1 ==> all[k].0 != e.0
    &&& e.2 == key_total(all.subrange(0, n), e.0)
}

/// The merged categories after the first `n` entries of `all`: keys
/// increase strictly, each entry records the first position of its key and
/// the total count of that key, and every key seen is present.
pub open spec fn merged_upto(m: Seq<(u64, usize, u64)>, all: Seq<(u64, u64)>, n: int) -> bool {
    &&& forall|i: int, j: int| 0 <= i < j < m.len() ==> (#[trigger] m[i]).0 < (#[trigger] m[j]).0
    &&& forall|i: int| 0 <= i < m.len() ==> entry_ok(#[trigger] m[i], all, n)
    &&& forall|k: int| 0 <= k < n ==> exists|i: int| 0 <= i < m.len() && (#[trigger] m[i]).0 == (
    #[trigger] all[k]).0
}

/// Total count of the merged categories.
pub open spec fn merged_total(m: Seq<(u64, usize, u64)>) -> int
    decreases m.len(),
{
    if m.len() == 0 {
        0
    } else {
        merged_total(m.drop_last()) + m.last().2
    }
}

proof fn lemma_merged_total_update(m: Seq<(u64, usize, u64)>, p: int, e: (u64, usize, u64))
    requires
        0 <= p < m.len(),
    ensures
        merged_total(m.update(p, e)) == merged_total(m) - m[p].2 + e.2,
    decreases m.len(),
{
    let u = m.update(p, e);
    if p == m.len() - 1 {
        assert(u.drop_last() =~= m.drop_last());
    } else {
        lemma_merged_total_update(m.drop_last(), p, e);
        assert(u.drop_last() =~= m.drop_last().update(p, e));
    }
}

proof fn lemma_merged_total_insert(m: Seq<(u64, usize, u64)>, p: int, e: (u64, usize, u64))
    requires
        0 <= p <= m.len(),
    ensures
        merged_total(m.insert(p, e)) == merged_total(m) + e.2,
    decreases m.len(),
{
    let u = m.insert(p, e);
    if p == m.len() {
        assert(u.drop_last() =~= m);
    } else {
        lemma_merged_total_insert(m.drop_last(), p, e);
        assert(u.drop_last() =~= m.drop_last().insert(p, e));
    }
}

proof fn lemma_pair_total_step(all: Seq<(u64, u64)>, n: int)
    requires
        0 <= n < all.len(),
    ensures
        pair_total(all.subrange(0, n + 1)) == pair_total(all.subrange(0, n)) + all[n].1,
{
    assert(all.subrange(0, n + 1).drop_last() =~= all.subrange(0, n));
}

proof fn lemma_prefix_step(all: Seq<(u64, u64)>, n: int, key: u64)
    requires
        0 <= n < all.len(),
    ensures
        all.subrange(0, n + 1).drop_last() == all.subrange(0, n),
        key_total(all.subrange(0, n + 1), key) == key_total(all.subrange(0, n), key) + if all[n].0
            == key {
            all[n].1 as int
        } else {
            0
        },
{
    assert(all.subrange(0, n + 1).drop_last() =~= all.subrange(0, n));
}

/// Adding a category whose key is already merged at position `p`.
#[verifier::spinoff_prover]
proof fn lemma_merge_update(
    before: Seq<(u64, usize, u64)>,
    all: Seq<(u64, u64)>,
    n: int,
    p: int,
)
    requires
        0 <= n < all.len(),
        merged_upto(before, all, n),
        0 <= p < before.len(),
        before[p].0 == all[n].0,
        before[p].2 + all[n].1 <= u64::MAX,
    ensures
        merged_upto(
            before.update(p, (before[p].0, before[p].1, (before[p].2 + all[n].1) as u64)),
            all,
            n + 1,
        ),
{
    let m = before.update(p, (before[p].0, before[p].1, (before[p].2 + all[n].1) as u64));
    assert forall|i: int| 0 <= i < before.len() && i != p implies (#[trigger] before[i]).0
        != all[n].0 by {
        if i < p {
            assert(before[i].0 < before[p].0);
        } else {
            assert(before[p].0 < before[i].0);
        }
    }
    lemma_update_entries(before, all, n, p);
    assert forall|i: int, j: int| 0 <= i < j < m.len() implies (#[trigger] m[i]).0 < (
    #[trigger] m[j]).0 by {
        assert(before[i].0 < before[j].0);
    }
    assert forall|k: int| 0 <= k < n + 1 implies exists|i: int|
        0 <= i < m.len() && (#[trigger] m[i]).0 == (#[trigger] all[k]).0 by {
        if k < n {
            let i = choose|i: int| 0 <= i < before.len() && (#[trigger] before[i]).0 == all[k].0;
            assert(m[i].0 == before[i].0);
        } else {
            assert(m[p].0 == all[k].0);
        }
    }
}

#[verifier::spinoff_prover]
proof fn lemma_update_entries(before: Seq<(u64, usize, u64)>, all: Seq<(u64, u64)>, n: int, p: int)
    requires
        0 <= n < all.len(),
        merged_upto(before, all, n),
        0 <= p < before.len(),
        before[p].0 == all[n].0,
        before[p].2 + all[n].1 <= u64::MAX,
        forall|i: int| 0 <= i < before.len() && i != p ==> (#[trigger] before[i]).0 != all[n].0,
    ensures
        forall|i: int|
            0 <= i < before.len() ==> entry_ok(
                #[trigger] before.update(
                    p,
                    (before[p].0, before[p].1, (before[p].2 + all[n].1) as u64),
                )[i],
                all,
                n + 1,
            ),
{
    let m = before.update(p, (before[p].0, before[p].1, (before[p].2 + all[n].1) as u64));
    assert forall|i: int| 0 <= i < m.len() implies entry_ok(#[trigger] m[i], all, n + 1) by {
        assert(entry_ok(before[i], all, n));
        lemma_prefix_step(all, n, before[i].0);
    }
}

/// Inserting a key between smaller and larger ones keeps keys increasing.
proof fn lemma_insert_sorted(before: Seq<(u64, usize, u64)>, p: int, x: (u64, usize, u64))
    requires
        forall|i: int, j: int|
            0 <= i < j < before.len() ==> (#[trigger] before[i]).0 < (#[trigger] before[j]).0,
        0 <= p <= before.len(),
        forall|i: int| 0 <= i < p ==> (#[trigger] before[i]).0 < x.0,
        p < before.len() ==> before[p].0 > x.0,
    ensures
        forall|i: int, j: int|
            0 <= i < j < before.insert(p, x).len() ==> (#[trigger] before.insert(p, x)[i]).0 < (
            #[trigger] before.insert(p, x)[j]).0,
{
    let m = before.insert(p, x);
    assert forall|i: int, j: int| 0 <= i < j < m.len() implies (#[trigger] m[i]).0 < (
    #[trigger] m[j]).0 by {
        if i < p && j == p {
            assert(m[i] == before[i]);
        } else if i == p && j > p {
            assert(m[j] == before[j - 1]);
            if j - 1 > p {
                assert(before[p].0 < before[j - 1].0);
            }
        } else if i < p && j > p {
            assert(m[i] == before[i]);
            assert(m[j] == before[j - 1]);
        } else if j < p {
            assert(m[i] == before[i]);
            assert(m[j] == before[j]);
        } else {
            assert(m[i] == before[i - 1]);
            assert(m[j] == before[j - 1]);
        }
    }
}

/// Adding a category with a new key, placed at position `p` to keep the
/// keys increasing.
#[verifier::spinoff_prover]
proof fn lemma_merge_insert(
    before: Seq<(u64, usize, u64)>,
    all: Seq<(u64, u64)>,
    n: int,
    p: int,
)
    requires
        0 <= n < all.len(),
        n <= usize::MAX,
        merged_upto(before, all, n),
        0 <= p <= before.len(),
        forall|i: int| 0 <= i < p ==> (#[trigger] before[i]).0 < all[n].0,
        p < before.len() ==> before[p].0 > all[n].0,
    ensures
        merged_upto(before.insert(p, (all[n].0, n as usize, all[n].1)), all, n + 1),
{
    let key = all[n].0;
    let x = (key, n as usize, all[n].1);
    let m = before.insert(p, x);
    let prefix = all.subrange(0, n);
    assert forall|i: int| 0 <= i < before.len() implies (#[trigger] before[i]).0 != key by {
        if i > p {
            assert(before[p].0 < before[i].0);
        }
    }
    assert forall|k: int| 0 <= k < prefix.len() implies (#[trigger] prefix[k]).0 != key by {
        assert(prefix[k] == all[k]);
        let i = choose|i: int| 0 <= i < before.len() && (#[trigger] before[i]).0 == all[k].0;
        assert(before[i].0 != key);
    }
    lemma_key_total_bounds(prefix, key);
    lemma_prefix_step(all, n, key);
    lemma_insert_sorted(before, p, x);
    lemma_insert_entries(before, all, n, p);
    assert forall|k: int| 0 <= k < n + 1 implies exists|i: int|
        0 <= i < m.len() && (#[trigger] m[i]).0 == (#[trigger] all[k]).0 by {
        if k < n {
            let i = choose|i: int| 0 <= i < before.len() && (#[trigger] before[i]).0 == all[k].0;
            if i < p {
                assert(m[i] == before[i]);
            } else {
                assert(m[i + 1] == before[i]);
            }
        } else {
            assert(m[p].0 == all[k].0);
        }
    }
}

#[verifier::spinoff_prover]
proof fn lemma_insert_entries(before: Seq<(u64, usize, u64)>, all: Seq<(u64, u64)>, n: int, p: int)
    requires
        0 <= n < all.len(),
        n <= usize::MAX,
        merged_upto(before, all, n),
        0 <= p <= before.len(),
        forall|i: int| 0 <= i < before.len() ==> (#[trigger] before[i]).0 != all[n].0,
        forall|k: int| 0 <= k < n ==> (#[trigger] all[k]).0 != all[n].0,
        key_total(all.subrange(0, n + 1), all[n].0) == all[n].1,
    ensures
        forall|i: int|
            0 <= i < before.insert(p, (all[n].0, n as usize, all[n].1)).len() ==> entry_ok(
                #[trigger] before.insert(p, (all[n].0, n as usize, all[n].1))[i],
                all,
                n + 1,
            ),
{
    let key = all[n].0;
    let m = before.insert(p, (key, n as usize, all[n].1));
    assert forall|i: int| 0 <= i < m.len() implies entry_ok(#[trigger] m[i], all, n + 1) by {
        if i != p {
            let b = if i < p {
                i
            } else {
                i - 1
            };
            assert(m[i] == before[b]);
            assert(before[b].0 != key);
            lemma_prefix_step(all, n, m[i].0);
        }
    }
}

/// Add the entry at position `n` of `all` to the merged categories.
fn merge_one(m: &mut Vec<(u64, usize, u64)>, key: u64, count: u64, n: usize, Ghost(all): Ghost<
    Seq<(u64, u64)>,
>)
    requires
        n < all.len(),
        all[n as int] == (key, count),
        merged_upto(old(m)@, all, n as int),
        merged_total(old(m)@) == pair_total(all.subrange(0, n as int)),
        pair_total(all) <= u64::MAX,
    ensures
        merged_upto(final(m)@, all, n + 1),
        merged_total(final(m)@) == pair_total(all.subrange(0, n + 1)),
{
    let mut p: usize = 0;
    while p < m.len() && m[p].0 < key
        invariant
            p <= m.len(),
            m@ == old(m)@,
            forall|i: int| 0 <= i < p ==> (#[trigger] m@[i]).0 < key,
        decreases m.len() - p,
    {
        p = p + 1;
    }
    let ghost before = m@;
    if p < m.len() && m[p].0 == key {
        let (k0, f0, c0) = m[p];
        proof {
            let next = all.subrange(0, n + 1);
            lemma_prefix_step(all, n as int, key);
            lemma_pair_total_prefix(all, n + 1);
            lemma_key_total_bounds(next, key);
        }
        m.set(p, (k0, f0, c0 + count));
        proof {
            lemma_merge_update(before, all, n as int, p as int);
            lemma_merged_total_update(before, p as int, (k0, f0, (c0 + count) as u64));
            lemma_pair_total_step(all, n as int);
        }
    } else {
        proof {
            lemma_merge_insert(before, all, n as int, p as int);
            lemma_merged_total_insert(before, p as int, (key, n, count));
            lemma_pair_total_step(all, n as int);
        }
        m.insert(p, (key, n, count));
    }
}

/// Merge the outcome categories of two arms, `(key, count)` each: one entry
/// per key, in increasing key order, with the position of the key's first
/// category (in `first` followed by `second`) and the total count of the key.
/// No count is lost: the merged counts add up to those of both arms.
#[verifier::rlimit(40)]
pub fn merge_outcome_counts(first: &Vec<(u64, u64)>, second: &Vec<(u64, u64)>) -> (r: Vec<
    (u64, usize, u64),
>)
    requires
        pair_total(first@ + second@) <= u64::MAX,
        first.len() + second.len() <= usize::MAX,
    ensures
        merged_upto(r@, first@ + second@, first.len() + second.len()),
        merged_total(r@) == pair_total(first@ + second@),
{
    let ghost all = first@ + second@;
    let mut m: Vec<(u64, usize, u64)> = Vec::new();
    assert(all.subrange(0, 0) =~= Seq::<(u64, u64)>::empty());
    let mut i: usize = 0;
    while i < first.len()
        invariant
            i <= first.len(),
            all == first@ + second@,
            pair_total(all) <= u64::MAX,
            merged_upto(m@, all, i as int),
            merged_total(m@) == pair_total(all.subrange(0, i as int)),
        decreases first.len() - i,
    {
        let (key, count) = first[i];
        assert(all[i as int] == first@[i as int]);
        merge_one(&mut m, key, count, i, Ghost(all));
        i = i + 1;
    }
    let mut j: usize = 0;
    while j < second.len()
        invariant
            j <= second.len(),
            all == first@ + second@,
            all.len() == first.len() + second.len(),
            first.len() + second.len() <= usize::MAX,
            pair_total(all) <= u64::MAX,
            merged_upto(m@, all, first.len() + j),
            merged_total(m@) == pair_total(all.subrange(0, first.len() + j)),
        decreases second.len() - j,
    {
        let (key, count) = second[j];
        assert(all[first.len() + j] == second@[j as int]);
        merge_one(&mut m, key, count, first.len() + j, Ghost(all));
        j = j + 1;
    }
    assert(all.subrange(0, all.len() as int) =~= all);
    m
}

/// Some name of the list is `x`.
pub open spec fn has_name(names: Seq<String>, x: Seq<char>) -> bool {
    exists|i: int| 0 <= i < names.len() && (#[trigger] names[i])@ == x
}

/// The last position of the name `x`, if the list has it.
fn last_position(names: &Vec<String>, x: &str) -> (r: Option<usize>)
    ensures
        match r {
            Some(j) => j < names.len() && names@[j as int]@ == x@ && forall|k: int|
                j < k < names.len() ==> names@[k]@ != x@,
            None => !has_name(names@, x@),
        },
{
    let mut j: usize = names.len();
    while j > 0
        invariant
            j <= names.len(),
            forall|k: int| j <= k < names.len() ==> names@[k]@ != x@,
        decreases j,
    {
        if str_eq(names[j - 1].as_str(), x) {
            return Some(j - 1);
        }
        j = j - 1;
    }
    None
}

/// Match the strata of an additional experiment to those of the original by
/// name: for each original stratum, the position of the additional stratum of
/// the same name (the last one, should a name repeat). Every additional
/// stratum must be in the original and every original stratum in the
/// additional experiment; otherwise the input is malformed.
pub fn match_strata(original: &Vec<String>, additional: &Vec<String>) -> (r: Result<
    Vec<usize>,
    EngineError,
>)
    ensures
        r is Ok <==> (forall|j: int|
            0 <= j < additional.len() ==> has_name(original@, (#[trigger] additional@[j])@)) && (
        forall|i: int| 0 <= i < original.len() ==> has_name(additional@, (#[trigger] original@[i])@)),
        r matches Err(e) ==> e.code == ErrorCode::MalformedInput,
        r matches Ok(m) ==> {
            &&& m.len() == original.len()
            &&& forall|i: int|
                0 <= i < m.len() ==> {
                    &&& (#[trigger] m@[i]) < additional.len()
                    &&& additional@[m@[i] as int]@ == original@[i]@
                    &&& forall|k: int| m@[i] < k < additional.len() ==> additional@[k]@ != original@[i]@
                }
        },
{
    let mut j: usize = 0;
    while j < additional.len()
        invariant
            j <= additional.len(),
            forall|k: int| 0 <= k < j ==> has_name(original@, (#[trigger] additional@[k])@),
        decreases additional.len() - j,
    {
        match last_position(original, additional[j].as_str()) {
            Some(i) => {
                assert(original@[i as int]@ == additional@[j as int]@);
            },
            None => {
                return Err(
                    EngineError::malformed(
                        "a stratum of the additional experiment is not in the original",
                    ),
                );
            },
        }
        j = j + 1;
    }
    let mut m: Vec<usize> = Vec::new();
    let mut i: usize = 0;
    while i < original.len()
        invariant
            i <= original.len(),
            m.len() == i,
            forall|k: int| 0 <= k < additional.len() ==> has_name(original@, (#[trigger] additional@[k])@),
            forall|k: int|
                0 <= k < i ==> {
                    &&& (#[trigger] m@[k]) < additional.len()
                    &&& additional@[m@[k] as int]@ == original@[k]@
                    &&& forall|q: int| m@[k] < q < additional.len() ==> additional@[q]@ != original@[k]@
                },
        decreases original.len() - i,
    {
        match last_position(additional, original[i].as_str()) {
            Some(p) => {
                m.push(p);
            },
            None => {
                return Err(
                    EngineError::malformed(
                        "a stratum of the original experiment is missing from the additional one",
                    ),
                );
            },
        }
        i = i + 1;
    }
    assert forall|k: int| 0 <= k < original.len() implies has_name(
        additional@,
        (#[trigger] original@[k])@,
    ) by {
        assert(additional@[m@[k] as int]@ == original@[k]@);
    }
    Ok(m)
}

/// The bit pattern of the binary64 negative zero.
pub const NEGATIVE_ZERO_BITS: u64 = 0x8000_0000_0000_0000;

/// The key of an outcome value given by its binary64 bit pattern: the bit
/// pattern itself, with negative zero identified with zero.
pub open spec fn canonical_key(bits: u64) -> u64 {
    if bits == NEGATIVE_ZERO_BITS {
        0
    } else {
        bits
    }
}

/// The categories of an arm, `(bits, count)`, keyed by their canonical key.
pub open spec fn keyed(s: Seq<(u64, u64)>) -> Seq<(u64, u64)> {
    s.map_values(|p: (u64, u64)| (canonical_key(p.0), p.1))
}

/// The key of an outcome value given by its binary64 bit pattern.
pub fn outcome_key(bits: u64) -> (r: u64)
    ensures
        r == canonical_key(bits),
{
    if bits == NEGATIVE_ZERO_BITS {
        0
    } else {
        bits
    }
}

proof fn lemma_keyed_total(s: Seq<(u64, u64)>)
    ensures
        pair_total(keyed(s)) == pair_total(s),
    decreases s.len(),
{
    if s.len() > 0 {
        lemma_keyed_total(s.drop_last());
        assert(keyed(s).drop_last() =~= keyed(s.drop_last()));
    }
}

fn keyed_categories(s: &Vec<(u64, u64)>) -> (r: Vec<(u64, u64)>)
    ensures
        r@ == keyed(s@),
{
    let mut r: Vec<(u64, u64)> = Vec::new();
    let mut i: usize = 0;
    while i < s.len()
        invariant
            i <= s.len(),
            r@ == keyed(s@.subrange(0, i as int)),
        decreases s.len() - i,
    {
        let (bits, count) = s[i];
        r.push((outcome_key(bits), count));
        assert(keyed(s@.subrange(0, i + 1)) =~= keyed(s@.subrange(0, i as int)).push(
            (canonical_key(bits), count),
        ));
        i = i + 1;
    }
    assert(s@.subrange(0, s.len() as int) =~= s@);
    r
}

/// Pool two arms of a stratum, each given by its number assigned and its
/// outcome categories `(bits, count)` with the binary64 bit pattern of the
/// outcome value: the numbers assigned add up, and the categories merge by
/// canonical key (negative zero merged with zero), as
/// [`merge_outcome_counts`] does.
pub fn pool_arms(
    first_assigned: u64,
    first: &Vec<(u64, u64)>,
    second_assigned: u64,
    second: &Vec<(u64, u64)>,
) -> (r: (u64, Vec<(u64, usize, u64)>))
    requires
        first_assigned + second_assigned <= u64::MAX,
        pair_total(first@ + second@) <= u64::MAX,
        first.len() + second.len() <= usize::MAX,
    ensures
        r.0 == first_assigned + second_assigned,
        merged_upto(r.1@, keyed(first@) + keyed(second@), first.len() + second.len()),
        merged_total(r.1@) == pair_total(first@ + second@),
{
    let a = keyed_categories(first);
    let b = keyed_categories(second);
    proof {
        assert(keyed(first@ + second@) =~= a@ + b@);
        lemma_keyed_total(first@ + second@);
    }
    let merged = merge_outcome_counts(&a, &b);
    (first_assigned + second_assigned, merged)
}

} // verus!
