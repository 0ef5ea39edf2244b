use result_verifier::command::{CommandResult, ExeScriptCommandResult};
use result_verifier::fixed::{Decimal, Quantity, Ratio};
use result_verifier::offense::OffenseType;
use result_verifier::ordered_map::OrderedMap;
use result_verifier::result_validator::ResultValidator;
use result_verifier::time::DateTime;

fn dec(x: f64) -> Decimal {
    Decimal { micros: (x * 1e6).round() as i64 }
}

fn at(secs: i64) -> DateTime {
    DateTime::from_timestamp(secs, 0).unwrap()
}

fn utc_now() -> DateTime {
    let now = chrono::Utc::now();
    DateTime::from_timestamp(now.timestamp(), now.timestamp_subsec_nanos()).unwrap()
}

fn create_test_result(index: u32, event_date: DateTime) -> ExeScriptCommandResult {
    ExeScriptCommandResult {
        index,
        result: CommandResult::Success,
        stdout: None,
        stderr: None,
        message: None,
        is_batch_finished: false,
        event_date,
    }
}

fn usage(entries: &[(&str, f64)]) -> OrderedMap<String, Decimal> {
    let mut map = OrderedMap::new();
    for (name, amount) in entries {
        map.insert(name.to_string(), dec(*amount));
    }
    map
}

#[test]
fn test_format_validation_empty() {
    let validator = ResultValidator::default();
    let result = validator.validate_format(&[]);
    assert!(!result.is_valid);
    assert!(!result.offenses.is_empty());
    assert_eq!(result.errors, vec!["Empty result set".to_string()]);
}

#[test]
fn test_format_validation_continuous() {
    let validator = ResultValidator::default();
    let now = utc_now();
    let results = vec![
        create_test_result(0, now),
        create_test_result(1, now),
        create_test_result(2, now),
    ];
    let result = validator.validate_format(&results);
    assert!(result.is_valid);
}

#[test]
fn test_format_validation_discontinuous() {
    let validator = ResultValidator::default();
    let now = utc_now();
    let results = vec![
        create_test_result(0, now),
        create_test_result(2, now), // Missing index 1
    ];
    let result = validator.validate_format(&results);
    assert!(!result.is_valid);
}

#[test]
fn test_resource_validation() {
    let validator = ResultValidator::default();
    let reported = usage(&[("cpu", 20.0), ("mem", 150.0)]);
    // 100% inflation, and within tolerance
    let consensus = usage(&[("cpu", 10.0), ("mem", 140.0)]);

    let result = validator.validate_resource_usage(&reported, &consensus);
    assert!(!result.is_valid);
    assert!(result.offenses.iter().any(|o| matches!(
        o,
        OffenseType::ResourceInflation { resource_type, .. } if resource_type == "cpu"
    )));
    assert_eq!(result.offenses.len(), 1);
    assert_eq!(
        result.errors,
        vec!["Resource inflation detected for cpu: reported 20, expected 10, ratio: 2.00"
            .to_string()]
    );
}

#[test]
fn test_cost_validation() {
    let validator = ResultValidator::default();
    let result = validator.validate_cost(dec(1.1), dec(1.0)); // 10% difference, exceeds 5% tolerance
    assert!(!result.is_valid);
    assert!(result.offenses.iter().any(|o| matches!(o, OffenseType::CostFraud { .. })));
    assert_eq!(
        result.errors,
        vec!["Cost fraud detected: reported 1.1, expected 1, difference: 0.100000, ratio: 10.00%"
            .to_string()]
    );
}

#[test]
fn indices_may_come_in_any_order() {
    let validator = ResultValidator::default();
    let now = at(1000);
    let results =
        vec![create_test_result(2, now), create_test_result(0, now), create_test_result(1, now)];
    assert!(validator.validate_format_at(&results, now).is_valid);
}

#[test]
fn gaps_repetitions_and_future_times_are_listed() {
    let validator = ResultValidator::default();
    let now = at(1000);
    let results = vec![
        create_test_result(0, now),
        create_test_result(5, at(1090)),
        create_test_result(0, now),
    ];
    let found = validator.validate_format_at(&results, now);
    assert!(!found.is_valid);
    assert_eq!(
        found.errors,
        vec![
            "Index discontinuity: expected 1, got 0".to_string(),
            "Index discontinuity: expected 2, got 5".to_string(),
            "Duplicate index: 0".to_string(),
            "Future timestamp detected: 90 seconds in the future".to_string(),
        ]
    );
    assert_eq!(found.offenses.len(), 4);
    assert_eq!(
        found.offenses[3],
        OffenseType::TimestampAnomaly {
            reported_time: at(1090),
            expected_time: now,
            time_difference_secs: 90,
        }
    );
    assert_eq!(
        found.offenses[2],
        OffenseType::FormatViolation { violation: "Duplicate index: 0".to_string() }
    );
    assert_eq!(found.clone(), found);
}

#[test]
fn a_tenth_more_is_tolerated_and_a_bit_more_is_not() {
    let validator = ResultValidator::default();
    let consensus = usage(&[("cpu", 10.0)]);
    assert!(validator.validate_resource_usage(&usage(&[("cpu", 11.0)]), &consensus).is_valid);
    assert!(validator.validate_resource_usage(&usage(&[("cpu", 9.0)]), &consensus).is_valid);
    assert!(!validator.validate_resource_usage(&usage(&[("cpu", 11.000001)]), &consensus).is_valid);
    assert!(!validator.validate_resource_usage(&usage(&[("cpu", 8.999999)]), &consensus).is_valid);
    assert!(validator.validate_cost(dec(1.05), dec(1.0)).is_valid);
    assert!(!validator.validate_cost(dec(1.050001), dec(1.0)).is_valid);
}

#[test]
fn usage_where_none_is_expected_is_boundless_inflation() {
    let validator = ResultValidator::default();
    let found =
        validator.validate_resource_usage(&usage(&[("gpu", 1.5)]), &usage(&[("gpu", 0.0)]));
    assert_eq!(
        found.offenses,
        vec![OffenseType::ResourceInflation {
            resource_type: "gpu".to_string(),
            reported_usage: dec(1.5),
            expected_usage: dec(0.0),
            inflation_ratio: Ratio::Infinite,
        }]
    );
    assert_eq!(
        found.errors[0],
        "Resource inflation detected for gpu: reported 1.5, expected 0, ratio: inf"
    );
    let none = validator.validate_resource_usage(&usage(&[("gpu", 0.0)]), &usage(&[("gpu", 0.0)]));
    assert!(none.is_valid);
    let cost = validator.validate_cost(dec(0.5), dec(0.0));
    assert_eq!(
        cost.errors[0],
        "Cost fraud detected: reported 0.5, expected 0, difference: 0.500000, ratio: inf%"
    );
    assert!(validator.validate_cost(dec(0.0), dec(0.0)).is_valid);
}

#[test]
fn unknown_resources_are_noted_but_no_offense() {
    let validator = ResultValidator::default();
    let found = validator.validate_resource_usage(&usage(&[("disk", 3.0)]), &usage(&[]));
    assert!(found.is_valid);
    assert!(found.offenses.is_empty());
    assert_eq!(found.errors, vec!["Unknown resource type in usage: disk".to_string()]);
}

#[test]
fn times_may_differ_by_the_allowed_seconds() {
    let validator = ResultValidator::new(dec(0.1), dec(0.05), 300);
    let consensus = at(10_000);
    let found = validator.validate_timestamps(&[at(10_300), at(9_700)], consensus);
    assert!(found.is_valid);
    let found = validator.validate_timestamps(&[at(10_301), at(10_000), at(9_000)], consensus);
    assert_eq!(
        found.errors,
        vec![
            "Timestamp anomaly: 301 seconds difference (max allowed: 300)".to_string(),
            "Timestamp anomaly: 1000 seconds difference (max allowed: 300)".to_string(),
        ]
    );
    assert_eq!(
        found.offenses[1],
        OffenseType::TimestampAnomaly {
            reported_time: at(9_000),
            expected_time: consensus,
            time_difference_secs: 1000,
        }
    );
}

#[test]
fn valid_results_have_no_offenses() {
    let validator = ResultValidator::default();
    let now = at(1000);
    let results = vec![create_test_result(0, now)];
    let found = validator.validate_comprehensive_at(
        &results,
        &results,
        Some(&usage(&[("cpu", 1.0)])),
        Some(&usage(&[("cpu", 1.0)])),
        Some(dec(1.0)),
        Some(dec(1.0)),
        now,
    );
    assert!(found.is_valid);
    assert!(found.offenses.is_empty());
    assert!(found.errors.is_empty());
}

#[test]
fn several_offenses_are_combined() {
    let validator = ResultValidator::default();
    let now = at(1000);
    let results = vec![create_test_result(0, now)];
    let late = vec![create_test_result(0, at(5000))];
    let one = validator.validate_comprehensive_at(
        &results, &results, None, None, Some(dec(2.0)), Some(dec(1.0)), now,
    );
    assert!(!one.is_valid);
    assert_eq!(
        one.offenses,
        vec![OffenseType::CostFraud {
            reported_cost: dec(2.0),
            expected_cost: dec(1.0),
            cost_difference: Quantity { micros: 1_000_000 },
        }]
    );
    let many = validator.validate_comprehensive_at(
        &results,
        &late,
        Some(&usage(&[("cpu", 2.0)])),
        Some(&usage(&[("cpu", 1.0)])),
        Some(dec(2.0)),
        Some(dec(1.0)),
        now,
    );
    assert_eq!(many.offenses.len(), 1);
    match &many.offenses[0] {
        OffenseType::Multiple(parts) => assert_eq!(parts.len(), 3),
        other => panic!("unexpected {:?}", other),
    }
    assert_eq!(many.errors.len(), 3);
    assert_eq!(many.offenses[0].clone(), many.offenses[0]);
    // Without a consensus to compare with, only the format is checked.
    let alone = validator.validate_comprehensive(&results, &[], None, None, None, None);
    assert!(alone.is_valid);
}
