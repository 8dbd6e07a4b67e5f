use bicmath::error::ErrorCode;
use bicmath::stratified::{
    counts_sum_to, first_repeated_name, match_strata, merge_outcome_counts, outcome_key,
    pool_arms, sign_counts, ValueSign,
};

fn names(list: &[&str]) -> Vec<String> {
    list.iter().map(|s| s.to_string()).collect()
}

#[test]
fn repeated_stratum_names_are_found_at_their_second_occurrence() {
    assert_eq!(first_repeated_name(&names(&["a", "b", "c", "b", "a"])), Some(3));
    assert_eq!(first_repeated_name(&names(&["new", "returning"])), None);
    assert_eq!(first_repeated_name(&names(&[])), None);
}

#[test]
fn arm_counts_must_add_up_to_the_assigned_number() {
    assert!(counts_sum_to(&vec![600, 300, 100], 1000));
    assert!(!counts_sum_to(&vec![600, 300, 99], 1000));
    assert!(!counts_sum_to(&vec![u64::MAX, 2], 1));
    assert!(counts_sum_to(&vec![], 0));
}

#[test]
fn outcome_categories_are_counted_by_sign() {
    let signs = vec![ValueSign::Positive, ValueSign::Zero, ValueSign::Negative, ValueSign::Positive];
    assert_eq!(sign_counts(&signs, &vec![5, 7, 2, 1]), (6, 2, 7));
}

#[test]
fn pooled_categories_merge_equal_keys_in_key_order() {
    let first = vec![(5u64, 10u64), (1, 3)];
    let second = vec![(1u64, 4u64), (9, 1), (5, 2)];
    assert_eq!(merge_outcome_counts(&first, &second), vec![(1, 1, 7), (5, 0, 12), (9, 3, 1)]);
    assert_eq!(merge_outcome_counts(&vec![], &vec![]), vec![]);
}

#[test]
fn strata_are_matched_by_name() {
    let original = names(&["beginners", "experts"]);
    assert_eq!(match_strata(&original, &names(&["experts", "beginners"])).unwrap(), vec![1, 0]);
    let extra = match_strata(&original, &names(&["experts", "beginners", "others"]));
    assert_eq!(extra.unwrap_err().code, ErrorCode::MalformedInput);
    let missing = match_strata(&original, &names(&["experts"]));
    assert_eq!(missing.unwrap_err().code, ErrorCode::MalformedInput);
}

#[test]
fn count_mismatch_is_rejected() {
    // treatment: assigned 3, one category of count 2; control: assigned 3, count 3
    assert!(!counts_sum_to(&vec![2], 3));
    assert!(counts_sum_to(&vec![3], 3));
}

#[test]
fn prospective_pool_pools_counts_and_flags_hypothetical() {
    let original = names(&["beginners", "advanced"]);
    let additional = names(&["beginners", "advanced"]);
    assert_eq!(match_strata(&original, &additional).unwrap(), vec![0, 1]);
    let hundred = 100.0f64.to_bits();
    let minus_ten = (-10.0f64).to_bits();
    let zero = 0.0f64.to_bits();
    let negative_zero = (-0.0f64).to_bits();
    let beginners_treatment = vec![(hundred, 320u64), (minus_ten, 80), (zero, 7600)];
    let additional_treatment = vec![(hundred, 40u64), (negative_zero, 960)];
    let (assigned, outcomes) = pool_arms(8000, &beginners_treatment, 1000, &additional_treatment);
    assert_eq!(assigned, 9000);
    assert_eq!(outcomes, vec![(zero, 2, 8560), (hundred, 0, 360), (minus_ten, 1, 80)]);
    let total: u64 = outcomes.iter().map(|o| o.2).sum();
    assert_eq!(total, assigned);
}

#[test]
fn negative_zero_shares_the_key_of_zero() {
    assert_eq!(outcome_key((-0.0f64).to_bits()), outcome_key(0.0f64.to_bits()));
    assert_eq!(outcome_key(1.5f64.to_bits()), 1.5f64.to_bits());
}
