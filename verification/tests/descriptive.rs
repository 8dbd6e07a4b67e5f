use bicmath::assumptions::{assumption_texts, planning_assumption_text};
use bicmath::error::{ErrorCode, NumericMode};
use bicmath::number::Number;
use bicmath::params::{count_table_shape, non_negative_u64, parse_choice, validate_successes};
use bicmath::stats::{
    covariance_exact, extreme_number, mean_exact, median_number, mode_numbers, quantile_number,
    rational_sqrt_exact, sorted_numbers, stddev_exact, summary, variance_exact, weighted_mean,
    StdDev,
};

fn numbers(values: &[i64]) -> Vec<Number> {
    values.iter().map(|v| Number::from_i64(*v)).collect()
}

fn half() -> Number {
    Number::ratio(1, 2).unwrap()
}

#[test]
fn exact_descriptive_values() {
    assert_eq!(mean_exact(&numbers(&[1, 2, 3])).unwrap().to_text(), "2");
    assert_eq!(mean_exact(&numbers(&[1, 2])).unwrap().to_text(), "3/2");
    assert_eq!(median_number(&numbers(&[2, 10, 30])).unwrap().to_text(), "10");
    assert_eq!(median_number(&numbers(&[1, 2, 10, 100])).unwrap().to_text(), "6");
    assert_eq!(variance_exact(&numbers(&[1, 2, 3]), 0).unwrap().to_text(), "2/3");
    assert_eq!(variance_exact(&numbers(&[1, 2, 3]), 1).unwrap().to_text(), "1");
}

#[test]
fn original_input_is_not_mutated() {
    let values = numbers(&[3, 1, 2]);
    assert_eq!(median_number(&values).unwrap().to_text(), "2");
    let texts: Vec<String> = values.iter().map(|v| v.to_text()).collect();
    assert_eq!(texts, vec!["3", "1", "2"]);
}

#[test]
fn mode_returns_all_ties() {
    let (modes, counts) = mode_numbers(&numbers(&[1, 2, 2, 3, 3])).unwrap();
    let texts: Vec<String> = modes.iter().map(|v| v.to_text()).collect();
    assert_eq!(texts, vec!["2", "3"]);
    assert_eq!(counts, vec![2, 2]);
}

#[test]
fn weighted_mean_rejects_bad_weights() {
    let err = weighted_mean(&numbers(&[1, 2]), &numbers(&[1, -1]), "frequency").err().unwrap();
    assert_eq!(err.code, ErrorCode::DomainViolation);
    assert_eq!(err.path.as_deref(), Some("weights[1]"));
    let err = weighted_mean(&numbers(&[1, 2]), &numbers(&[0, 0]), "frequency").err().unwrap();
    assert_eq!(err.code, ErrorCode::DomainViolation);
    assert_eq!(err.path, None);
    let err = weighted_mean(&numbers(&[1, 2]), &numbers(&[1]), "frequency").err().unwrap();
    assert_eq!(err.code, ErrorCode::MalformedInput);
}

#[test]
fn stddev_exact_and_approximate_paths() {
    match stddev_exact(&numbers(&[1, 2, 3]), 1, NumericMode::Auto).unwrap() {
        StdDev::Exact(root) => assert_eq!(root.to_text(), "1"),
        StdDev::Approximate(_) => panic!("expected an exact standard deviation"),
    }
    let err = stddev_exact(&numbers(&[1, 2, 3]), 0, NumericMode::Exact).err().unwrap();
    assert_eq!(err.code, ErrorCode::UnsupportedNumericMode);
    match stddev_exact(&numbers(&[1, 2, 3]), 0, NumericMode::Auto).unwrap() {
        StdDev::Approximate(variance) => assert_eq!(variance.to_text(), "2/3"),
        StdDev::Exact(_) => panic!("expected an approximate standard deviation"),
    }
}

#[test]
fn quantile_methods() {
    let values = numbers(&[1, 2, 3, 4]);
    assert_eq!(quantile_number(&values, &half(), "lower").unwrap().to_text(), "2");
    assert_eq!(quantile_number(&values, &half(), "higher").unwrap().to_text(), "3");
    // h = 1.5 rounds half-to-even to index 2, so the nearest value is 3.
    assert_eq!(quantile_number(&values, &half(), "nearest").unwrap().to_text(), "3");
}

#[test]
fn summary_exact_record() {
    let record = summary(&numbers(&[1, 2, 3]), NumericMode::Auto).unwrap();
    assert_eq!(record.variance.to_text(), "1");
    assert!(matches!(record.stddev, StdDev::Exact(_)));
    assert_eq!(record.count, 3);
    assert_eq!(record.mean.to_text(), "2");
    assert_eq!(record.minimum.to_text(), "1");
    assert_eq!(record.maximum.to_text(), "3");
    assert_eq!(record.median.to_text(), "2");
    assert_eq!(record.q25.to_text(), "3/2");
    assert_eq!(record.q50.to_text(), "2");
    assert_eq!(record.q75.to_text(), "5/2");
}

#[test]
fn summary_needs_two_observations() {
    let err = summary(&numbers(&[1]), NumericMode::Auto).err().unwrap();
    assert_eq!(err.code, ErrorCode::InsufficientObservations);
}

#[test]
fn empty_inputs_are_insufficient() {
    let empty: Vec<Number> = Vec::new();
    assert_eq!(mean_exact(&empty).err().unwrap().code, ErrorCode::InsufficientObservations);
    assert_eq!(median_number(&empty).err().unwrap().code, ErrorCode::InsufficientObservations);
    assert_eq!(mode_numbers(&empty).err().unwrap().code, ErrorCode::InsufficientObservations);
    assert_eq!(
        extreme_number(&empty, true).err().unwrap().code,
        ErrorCode::InsufficientObservations
    );
    assert_eq!(
        quantile_number(&empty, &half(), "linear").err().unwrap().code,
        ErrorCode::InsufficientObservations
    );
    assert_eq!(
        variance_exact(&numbers(&[1, 2]), 2).err().unwrap().code,
        ErrorCode::InsufficientObservations
    );
}

#[test]
fn extremes_are_observations() {
    let values = numbers(&[3, -1, 7, 2]);
    assert_eq!(extreme_number(&values, true).unwrap().to_text(), "-1");
    assert_eq!(extreme_number(&values, false).unwrap().to_text(), "7");
}

#[test]
fn sorting_keeps_every_observation() {
    let values = numbers(&[5, 3, 5, -2, 0]);
    let sorted: Vec<String> = sorted_numbers(&values).iter().map(|v| v.to_text()).collect();
    assert_eq!(sorted, vec!["-2", "0", "3", "5", "5"]);
}

#[test]
fn quantile_linear_and_midpoint() {
    let values = numbers(&[1, 2, 3, 4]);
    assert_eq!(quantile_number(&values, &half(), "linear").unwrap().to_text(), "5/2");
    assert_eq!(quantile_number(&values, &half(), "midpoint").unwrap().to_text(), "5/2");
    let q = Number::ratio(1, 3).unwrap();
    assert_eq!(quantile_number(&values, &q, "linear").unwrap().to_text(), "2");
}

#[test]
fn quantile_rejects_bad_arguments() {
    let values = numbers(&[1, 2, 3, 4]);
    let too_big = Number::ratio(3, 2).unwrap();
    assert_eq!(
        quantile_number(&values, &too_big, "linear").err().unwrap().code,
        ErrorCode::DomainViolation
    );
    assert_eq!(
        quantile_number(&values, &half(), "cubic").err().unwrap().code,
        ErrorCode::DomainViolation
    );
}

#[test]
fn weighted_mean_exact_value() {
    let mean = weighted_mean(&numbers(&[1, 2, 3]), &numbers(&[1, 1, 2]), "frequency").unwrap();
    assert_eq!(mean.to_text(), "9/4");
    let reliability = vec![half(), Number::from_i64(1)];
    let mean = weighted_mean(&numbers(&[2, 5]), &reliability, "reliability").unwrap();
    assert_eq!(mean.to_text(), "4");
    let err = weighted_mean(&numbers(&[2, 5]), &reliability, "frequency").err().unwrap();
    assert_eq!(err.code, ErrorCode::DomainViolation);
    let err = weighted_mean(&numbers(&[2, 5]), &numbers(&[1, 1]), "volume").err().unwrap();
    assert_eq!(err.code, ErrorCode::DomainViolation);
    let empty: Vec<Number> = Vec::new();
    let err = weighted_mean(&empty, &empty, "frequency").err().unwrap();
    assert_eq!(err.code, ErrorCode::InsufficientObservations);
}

#[test]
fn covariance_exact_value() {
    let xs = numbers(&[1, 2, 3]);
    let ys = numbers(&[2, 4, 7]);
    assert_eq!(covariance_exact(&xs, &ys, 1).unwrap().to_text(), "5/2");
    assert_eq!(covariance_exact(&xs, &ys, 0).unwrap().to_text(), "5/3");
}

#[test]
fn square_roots_of_rationals() {
    let value = Number::ratio(9, 4).unwrap();
    assert_eq!(rational_sqrt_exact(&value).unwrap().to_text(), "3/2");
    assert!(rational_sqrt_exact(&Number::from_i64(2)).is_none());
    assert!(rational_sqrt_exact(&Number::from_i64(-4)).is_none());
}

#[test]
fn assumption_texts_are_stated() {
    assert!(planning_assumption_text().starts_with("a power or sample-size figure"));
    assert_eq!(assumption_texts(false).len(), 7);
    let prospective = assumption_texts(true);
    assert_eq!(prospective.len(), 8);
    assert_eq!(
        prospective[7],
        "the additional data is hypothetical and the result is not an observed result"
    );
}

#[test]
fn choices_default_and_reject_unknown_variants() {
    let variants = ["linear", "lower", "higher"];
    assert_eq!(parse_choice("method", None, "linear", &variants).unwrap(), "linear");
    assert_eq!(parse_choice("method", Some("lower"), "linear", &variants).unwrap(), "lower");
    let err = parse_choice("method", Some("cubic"), "linear", &variants).err().unwrap();
    assert_eq!(err.code, ErrorCode::DomainViolation);
    assert_eq!(err.path.as_deref(), Some("method"));
}

#[test]
fn degrees_of_freedom_must_fit_u64() {
    assert_eq!(non_negative_u64(&Number::from_i64(3), "ddof").unwrap(), 3);
    let err = non_negative_u64(&Number::from_i64(-1), "ddof").err().unwrap();
    assert_eq!(err.code, ErrorCode::DomainViolation);
    assert_eq!(err.path.as_deref(), Some("ddof"));
}

#[test]
fn success_counts_are_validated_against_trials() {
    let n = |v: i64| Number::from_i64(v);
    assert_eq!(validate_successes(&n(3), &n(10), "").unwrap(), (3, 10));
    assert_eq!(validate_successes(&n(10), &n(10), "").unwrap(), (10, 10));
    for (s, t, path) in [(0, 0, "a.n"), (11, 10, "a.successes"), (-1, 10, "a.successes"), (1, -5, "a.n")] {
        let err = validate_successes(&n(s), &n(t), "a.").unwrap_err();
        assert_eq!(err.code, ErrorCode::DomainViolation);
        assert_eq!(err.path.as_deref(), Some(path));
    }
}

#[test]
fn quantiles_are_bracketed_and_ignore_order() {
    let q = Number::ratio(3, 8).unwrap();
    let expected = [("lower", "1"), ("linear", "2"), ("midpoint", "2"), ("nearest", "3"), ("higher", "3")];
    for values in [numbers(&[3, 1, 4, 1, 5]), numbers(&[5, 4, 3, 1, 1])] {
        for (method, text) in expected {
            assert_eq!(quantile_number(&values, &q, method).unwrap().to_text(), text);
        }
        for method in ["lower", "linear", "midpoint", "nearest", "higher"] {
            assert_eq!(quantile_number(&values, &Number::from_i64(0), method).unwrap().to_text(), "1");
            assert_eq!(quantile_number(&values, &Number::from_i64(1), method).unwrap().to_text(), "5");
        }
    }
}

#[test]
fn ragged_and_empty_tables_are_rejected() {
    assert_eq!(count_table_shape("table", &vec![2, 2]).unwrap(), (2, 2));
    assert_eq!(count_table_shape("table", &vec![3, 3, 3]).unwrap(), (3, 3));
    let err = count_table_shape("table", &vec![2, 3]).unwrap_err();
    assert_eq!(err.code, ErrorCode::MalformedInput);
    assert_eq!(err.path.as_deref(), Some("table[1]"));
    let err = count_table_shape("table", &vec![2, 0]).unwrap_err();
    assert_eq!(err.code, ErrorCode::DomainViolation);
    assert_eq!(err.path.as_deref(), Some("table[1]"));
    let err = count_table_shape("table", &vec![]).unwrap_err();
    assert_eq!(err.code, ErrorCode::DomainViolation);
    assert_eq!(err.path.as_deref(), Some("table"));
    let err = count_table_shape("table", &vec![1, 1]).unwrap_err();
    assert_eq!(err.code, ErrorCode::DomainViolation);
    assert_eq!(err.path.as_deref(), Some("table"));
}
