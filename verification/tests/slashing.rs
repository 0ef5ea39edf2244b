use result_verifier::fixed::{Decimal, Quantity, Ratio};
use result_verifier::node::{create_node_id, NodeId};
use result_verifier::ordered_map::OrderedMap;
use result_verifier::slashing::{
    generate_slashing_actions, generate_slashing_actions_advanced,
    generate_slashing_actions_advanced_at, generate_slashing_actions_with_severity,
    generate_slashing_actions_with_severity_at, OffenseContext, OffenseSeverity, OffenseTracker,
    OffenseType, PenaltyMode, SeverityEvaluator, SlashingConfig,
};
use result_verifier::time::DateTime;

fn node_id(s: &str) -> NodeId {
    create_node_id(s)
}

fn qty(x: f64) -> Quantity {
    Quantity { micros: (x * 1e6).round() as u64 }
}

fn at(secs: i64) -> DateTime {
    DateTime::from_timestamp(secs, 0).unwrap()
}

fn utc_now() -> DateTime {
    let now = chrono::Utc::now();
    DateTime::from_timestamp(now.timestamp(), now.timestamp_subsec_nanos()).unwrap()
}

fn context(provider: &str, time: DateTime, colluders: usize, total: usize) -> OffenseContext {
    OffenseContext {
        provider_id: node_id(provider),
        offense_time: time,
        wrong_result_hash: "wrong".to_string(),
        correct_result_hash: "correct".to_string(),
        offense_type: OffenseType::WrongResult,
        colluding_providers: (0..colluders).map(|i| node_id(&format!("c{}", i))).collect(),
        total_providers: total,
        malicious_count: 1,
        resource_usage: None,
        cost_info: None,
    }
}

#[test]
fn test_slashing_first_offense() {
    let config = SlashingConfig::default();
    let mut tracker = OffenseTracker::new(config);
    let provider_id = node_id("provider1");

    tracker.record_offense(provider_id.clone());
    let penalty = tracker.calculate_penalty(&provider_id);

    assert_eq!(penalty, qty(1.0)); // base_penalty (fixed mode fallback)
}

#[test]
fn test_slashing_proportional() {
    let config = SlashingConfig {
        penalty_mode: PenaltyMode::Proportional,
        base_slash_ratio: qty(0.01),
        min_penalty_amount: qty(1.0),
        ..Default::default()
    };
    let mut tracker = OffenseTracker::new(config);
    let provider_id = node_id("provider1");

    tracker.record_offense(provider_id.clone());

    // Test with stake amount
    let penalty = tracker.calculate_penalty_advanced(
        &provider_id,
        Some(qty(1000.0)),
        Some(OffenseSeverity::Moderate),
    );

    assert_eq!(penalty, qty(10.0)); // 1000 * 1% = 10
}

#[test]
fn test_severity_evaluator_collusion() {
    let mut evaluator = SeverityEvaluator::new();

    let context = OffenseContext {
        provider_id: node_id("provider1"),
        offense_time: utc_now(),
        wrong_result_hash: "wrong".to_string(),
        correct_result_hash: "correct".to_string(),
        offense_type: OffenseType::WrongResult,
        colluding_providers: vec![
            node_id("provider1"),
            node_id("provider2"),
            node_id("provider3"),
        ],
        total_providers: 5,
        malicious_count: 3,
        resource_usage: None,
        cost_info: None,
    };

    let severity = evaluator.evaluate_severity(&context);
    assert_eq!(severity, OffenseSeverity::Severe); // 3/5 = 60% collusion
}

#[test]
fn test_severity_evaluator_single_offense() {
    let mut evaluator = SeverityEvaluator::new();

    let context = OffenseContext {
        provider_id: node_id("provider1"),
        offense_time: utc_now(),
        wrong_result_hash: "wrong".to_string(),
        correct_result_hash: "correct".to_string(),
        offense_type: OffenseType::WrongResult,
        colluding_providers: vec![],
        total_providers: 5,
        malicious_count: 1,
        resource_usage: None,
        cost_info: None,
    };

    let severity = evaluator.evaluate_severity(&context);
    assert_eq!(severity, OffenseSeverity::Minor); // Single offense
}

#[test]
fn test_severity_evaluator_repeat_offense() {
    let mut evaluator = SeverityEvaluator::new();
    let provider_id = node_id("provider1");

    // First offense
    let context1 = OffenseContext {
        provider_id: provider_id.clone(),
        offense_time: utc_now(),
        wrong_result_hash: "wrong1".to_string(),
        correct_result_hash: "correct".to_string(),
        offense_type: OffenseType::WrongResult,
        colluding_providers: vec![],
        total_providers: 5,
        malicious_count: 1,
        resource_usage: None,
        cost_info: None,
    };
    evaluator.evaluate_severity(&context1);

    // Second offense within time window
    let context2 = OffenseContext {
        provider_id: provider_id.clone(),
        offense_time: utc_now().later_by(100), // Within 1 hour
        wrong_result_hash: "wrong2".to_string(),
        correct_result_hash: "correct".to_string(),
        offense_type: OffenseType::WrongResult,
        colluding_providers: vec![],
        total_providers: 5,
        malicious_count: 1,
        resource_usage: None,
        cost_info: None,
    };
    let severity = evaluator.evaluate_severity(&context2);

    // Should be moderate or severe depending on score
    assert!(matches!(severity, OffenseSeverity::Moderate | OffenseSeverity::Severe));
}

fn penalties(config: SlashingConfig, stake: Option<f64>, severity: Option<OffenseSeverity>, n: usize) -> Vec<Quantity> {
    let mut tracker = OffenseTracker::new(config);
    let id = node_id("p");
    let mut found = Vec::new();
    for _ in 0..n {
        tracker.record_offense(id);
        found.push(tracker.calculate_penalty_advanced(&id, stake.map(qty), severity));
    }
    found
}

#[test]
fn repeated_offenses_cost_half_as_much_again() {
    let found =
        penalties(SlashingConfig::default(), Some(1000.0), Some(OffenseSeverity::Moderate), 8);
    let expected: Vec<Quantity> =
        [10.0, 15.0, 22.5, 33.75, 50.625, 75.9375, 100.0, 100.0].iter().map(|x| qty(*x)).collect();
    assert_eq!(found, expected);
}

#[test]
fn shares_depend_on_the_severity() {
    let first = |severity: Option<OffenseSeverity>| {
        penalties(SlashingConfig::default(), Some(1000.0), severity, 1)[0]
    };
    assert_eq!(first(Some(OffenseSeverity::Minor)), qty(5.0));
    assert_eq!(first(Some(OffenseSeverity::Moderate)), qty(10.0));
    assert_eq!(first(Some(OffenseSeverity::Severe)), qty(50.0));
    assert_eq!(first(None), qty(10.0));
    let mut config = SlashingConfig::default();
    config.severity_ratios = OrderedMap::new();
    config.base_slash_ratio = qty(0.02);
    assert_eq!(
        penalties(config, Some(1000.0), Some(OffenseSeverity::Severe), 1)[0],
        qty(20.0)
    );
}

#[test]
fn penalties_stay_within_their_limits() {
    // The least penalty protects against small stakes, but never exceeds them.
    let small = penalties(SlashingConfig::default(), Some(100.0), Some(OffenseSeverity::Minor), 1);
    assert_eq!(small[0], qty(1.0));
    let tiny = penalties(SlashingConfig::default(), Some(0.4), Some(OffenseSeverity::Severe), 1);
    assert_eq!(tiny[0], qty(0.4));
    let rich =
        penalties(SlashingConfig::default(), Some(1_000_000.0), Some(OffenseSeverity::Severe), 2);
    assert_eq!(rich, vec![qty(100.0), qty(100.0)]);
    let mut config = SlashingConfig::default();
    config.max_penalty_amount = None;
    config.max_slash_ratio = qty(3.0);
    config.base_slash_ratio = qty(2.0);
    assert_eq!(penalties(config, Some(50.0), None, 1)[0], qty(50.0));
}

#[test]
fn fixed_penalties_ignore_the_stake() {
    let mut config = SlashingConfig::default();
    config.penalty_mode = PenaltyMode::FixedAmount;
    let found = penalties(config.clone(), Some(1_000_000.0), None, 8);
    let expected: Vec<Quantity> = [1.0, 1.5, 2.25, 3.375, 5.0625, 7.59375, 10.0, 10.0]
        .iter()
        .map(|x| qty(*x))
        .collect();
    assert_eq!(found, expected);
    config.penalty_mode = PenaltyMode::Hybrid;
    assert_eq!(penalties(config.clone(), Some(1000.0), None, 1)[0], qty(10.0));
    assert_eq!(penalties(config.clone(), Some(0.5), None, 1)[0], qty(1.0));
    // Without a stake the fixed amount takes the place of the share.
    assert_eq!(penalties(SlashingConfig::default(), None, None, 2)[1], qty(1.5));
    // A factor below one lets penalties shrink.
    config.penalty_mode = PenaltyMode::FixedAmount;
    config.repeat_offense_multiplier = qty(0.5);
    assert_eq!(penalties(config, None, None, 3)[2], qty(0.25));
}

#[test]
fn huge_factors_and_counts_end_at_the_limit() {
    let mut config = SlashingConfig::default();
    config.penalty_mode = PenaltyMode::FixedAmount;
    config.repeat_offense_multiplier = Quantity { micros: u64::MAX };
    config.base_penalty = Quantity { micros: u64::MAX };
    config.max_penalty = Quantity { micros: u64::MAX };
    let found = penalties(config, None, None, 5);
    assert!(found.iter().all(|p| *p == Quantity { micros: u64::MAX }));
}

#[test]
fn no_offense_costs_nothing() {
    let tracker = OffenseTracker::new(SlashingConfig::default());
    let id = node_id("clean");
    assert_eq!(tracker.calculate_penalty(&id), qty(0.0));
    assert_eq!(tracker.get_offense_count(&id), 0);
    assert_eq!(tracker.get_last_offense_time(&id), None);
    assert!(tracker.get_offending_providers().is_empty());
}

#[test]
fn offenses_are_counted_per_provider() {
    let mut tracker = OffenseTracker::new(SlashingConfig::default());
    tracker.record_offense_at(node_id("a"), at(1));
    tracker.record_offense_at(node_id("b"), at(2));
    tracker.record_offense_at(node_id("a"), at(3));
    assert_eq!(tracker.get_offense_count(&node_id("a")), 2);
    assert_eq!(tracker.get_offense_count(&node_id("b")), 1);
    assert_eq!(tracker.get_last_offense_time(&node_id("a")), Some(at(3)));
    assert_eq!(tracker.get_offending_providers(), vec![node_id("a"), node_id("b")]);
    assert_eq!(tracker.clone(), tracker);
}

#[test]
fn collusion_is_graded_by_its_share() {
    let judge = |colluders: usize, total: usize| {
        SeverityEvaluator::new().evaluate_severity(&context("p", at(0), colluders, total))
    };
    // One other provider is no collusion.
    assert_eq!(judge(1, 2), OffenseSeverity::Minor);
    // Three tenths and more are severe.
    assert_eq!(judge(3, 10), OffenseSeverity::Severe);
    assert_eq!(judge(2, 0), OffenseSeverity::Severe);
    // 0.8 * 0.4 + 0.2 * 0.25 + 0.8 * 0.2 + 0.2 * 0.15 = 0.56
    assert_eq!(judge(2, 10), OffenseSeverity::Moderate);
    // 0.6 * 0.4 + 0.05 + 0.16 + 0.03 = 0.48
    assert_eq!(judge(2, 100), OffenseSeverity::Moderate);
}

#[test]
fn habitual_offenders_are_judged_harder() {
    let mut evaluator = SeverityEvaluator::default();
    let mut levels = Vec::new();
    for i in 0..12 {
        levels.push(evaluator.evaluate_severity(&context("p", at(i * 10), 0, 5)));
    }
    assert_eq!(levels[0], OffenseSeverity::Minor);
    assert!(levels[1..].iter().all(|l| *l == OffenseSeverity::Moderate));
    assert_eq!(evaluator.get_offense_history(&node_id("p")), Some((12, Some(at(110)))));
    assert_eq!(evaluator.get_offense_history(&node_id("q")), None);
    // After more than an hour it is no repetition: 0.08 + 0.3 * 0.25 + 0.06 + 0.15.
    assert_eq!(
        evaluator.evaluate_severity(&context("p", at(110 + 3600), 0, 5)),
        OffenseSeverity::Minor
    );
    // With a small collusion and a long record the sum reaches 0.7.
    let mut hard = context("p", at(110 + 3601), 2, 10);
    hard.offense_type = OffenseType::FormatViolation { violation: "x".to_string() };
    assert_eq!(evaluator.evaluate_severity(&hard), OffenseSeverity::Severe);
}

#[test]
fn patterns_weigh_differently() {
    // With five earlier offenses just now: 0.2 * 0.4 + 1.0 * 0.25 + 0.8 * 0.15 = 0.45 and the
    // pattern's fifth; with none: 0.16 and the pattern's fifth.
    let fresh = |offense_type: OffenseType| {
        let mut c = context("p", at(0), 0, 5);
        c.offense_type = offense_type;
        SeverityEvaluator::new().evaluate_severity(&c)
    };
    let inflated = |micros: i64| OffenseType::ResourceInflation {
        resource_type: "cpu".to_string(),
        reported_usage: Decimal { micros },
        expected_usage: Decimal { micros: 1_000_000 },
        inflation_ratio: Ratio::Finite(Decimal { micros }),
    };
    assert_eq!(fresh(inflated(3_000_000)), OffenseSeverity::Minor);
    let colluding = |offense_type: OffenseType| {
        let mut c = context("p", at(0), 2, 20);
        c.offense_type = offense_type;
        // 0.6 * 0.4 + 0.05 + 0.03 = 0.32 and the pattern's fifth
        SeverityEvaluator::new().evaluate_severity(&c)
    };
    let fraud = |difference: u64| OffenseType::CostFraud {
        reported_cost: Decimal { micros: 1_000_000 },
        expected_cost: Decimal { micros: 1_000_000 },
        cost_difference: Quantity { micros: difference },
    };
    let shifted = |secs: i64| OffenseType::TimestampAnomaly {
        reported_time: at(0),
        expected_time: at(0),
        time_difference_secs: secs,
    };
    assert_eq!(colluding(shifted(300)), OffenseSeverity::Minor); // 0.36
    assert_eq!(colluding(shifted(301)), OffenseSeverity::Moderate); // 0.42
    assert_eq!(colluding(shifted(3601)), OffenseSeverity::Moderate); // 0.48
    assert_eq!(colluding(fraud(99_999)), OffenseSeverity::Moderate); // 0.42
    assert_eq!(colluding(OffenseType::Multiple(vec![])), OffenseSeverity::Minor); // 0.32
    // 0.2 raised by a fifth is 0.24, which is 0.368 in all.
    assert_eq!(
        colluding(OffenseType::Multiple(vec![shifted(0), shifted(1)])),
        OffenseSeverity::Minor
    );
    // The edge of 0.4: 0.6 * 0.4 + 0.3 * 0.25 + 0.2 * 0.2 + 0.3 * 0.15 is exactly 0.4.
    let mut evaluator = SeverityEvaluator::new();
    evaluator.evaluate_severity(&context("p", at(0), 0, 5));
    let mut edge = context("p", at(10_000), 2, 20);
    edge.offense_type = shifted(0);
    assert_eq!(evaluator.evaluate_severity(&edge), OffenseSeverity::Moderate);
}

#[test]
fn a_combined_offense_scores_a_fifth_more_than_its_worst_part() {
    let evaluator = SeverityEvaluator::new();
    let score = |offense_type: OffenseType| {
        let mut c = context("p", at(0), 0, 5);
        c.offense_type = offense_type;
        evaluator.evaluate_pattern(&c)
    };
    let violation = || OffenseType::FormatViolation { violation: "v".to_string() };
    let wrong = || OffenseType::WrongResult;
    let boundless = || OffenseType::ResourceInflation {
        resource_type: "cpu".to_string(),
        reported_usage: Decimal { micros: 1 },
        expected_usage: Decimal { micros: 0 },
        inflation_ratio: Ratio::Infinite,
    };
    assert_eq!(score(wrong()), 300_000);
    assert_eq!(score(violation()), 600_000);
    assert_eq!(score(boundless()), 900_000);
    assert_eq!(score(OffenseType::Multiple(vec![])), 0);
    assert_eq!(score(OffenseType::Multiple(vec![wrong()])), 360_000);
    assert_eq!(score(OffenseType::Multiple(vec![wrong(), violation()])), 720_000);
    assert_eq!(score(OffenseType::Multiple(vec![violation(), wrong(), wrong()])), 720_000);
    assert_eq!(score(OffenseType::Multiple(vec![boundless(), violation()])), 1_000_000);
    let nested = OffenseType::Multiple(vec![OffenseType::Multiple(vec![violation()]), wrong()]);
    assert_eq!(score(nested), 864_000);
}

#[test]
fn actions_carry_severity_count_and_reason() {
    let mut tracker = OffenseTracker::new(SlashingConfig::default());
    let mut evaluator = SeverityEvaluator::new();
    let ids = vec![node_id("a"), node_id("b"), node_id("a")];
    let contexts = vec![context("a", at(0), 3, 5)];
    let actions = generate_slashing_actions_with_severity_at(
        &ids,
        &mut tracker,
        &mut evaluator,
        &contexts,
        at(10),
    );
    assert_eq!(actions.len(), 3);
    assert_eq!(actions[0].severity, OffenseSeverity::Severe);
    assert_eq!(actions[0].reason, "违规严重程度: Severe, 违规次数: 1");
    assert_eq!(actions[0].penalty_amount, qty(1.0));
    assert_eq!(actions[1].severity, OffenseSeverity::Minor);
    assert_eq!(actions[2].offense_count, 2);
    assert_eq!(actions[2].severity, OffenseSeverity::Moderate);
    assert_eq!(actions[2].penalty_amount, qty(1.5));
    assert_eq!(actions[2].reason, "违规严重程度: Moderate, 违规次数: 2");
    assert_eq!(tracker.get_last_offense_time(&node_id("b")), Some(at(10)));
    assert_eq!(actions[0].clone(), actions[0]);
}

#[test]
fn actions_on_stakes_show_the_stake() {
    let mut tracker = OffenseTracker::new(SlashingConfig::default());
    let mut evaluator = SeverityEvaluator::new();
    let mut stakes = OrderedMap::new();
    stakes.insert(node_id("a"), qty(1000.0));
    let actions = generate_slashing_actions_advanced_at(
        &[node_id("a"), node_id("b")],
        &mut tracker,
        &mut evaluator,
        &[context("a", at(0), 3, 5)],
        &stakes,
        at(10),
    );
    assert_eq!(actions[0].penalty_amount, qty(50.0));
    assert_eq!(actions[0].reason, "违规严重程度: Severe, 违规次数: 1, 质押金额: 1000.00");
    // Without a context the offense is moderate and is not remembered.
    assert_eq!(actions[1].severity, OffenseSeverity::Moderate);
    assert_eq!(actions[1].penalty_amount, qty(1.0));
    assert_eq!(actions[1].reason, "违规严重程度: Moderate, 违规次数: 1, 质押金额: 0.00");
    assert_eq!(evaluator.get_offense_history(&node_id("b")), None);
    let more = generate_slashing_actions_advanced(
        &[node_id("a")],
        &mut tracker,
        &mut evaluator,
        &[],
        &stakes,
    );
    assert_eq!(more[0].penalty_amount, qty(15.0));
}

#[test]
fn actions_by_the_clock() {
    let mut tracker = OffenseTracker::new(SlashingConfig::default());
    let actions = generate_slashing_actions(&[node_id("a"), node_id("b")], &mut tracker);
    assert_eq!(actions.len(), 2);
    assert!(actions.iter().all(|a| a.severity == OffenseSeverity::Minor && a.offense_count == 1));
    assert!(tracker.get_last_offense_time(&node_id("a")).unwrap().is_after(&at(1_600_000_000)));
    let mut evaluator = SeverityEvaluator::new();
    let again = generate_slashing_actions_with_severity(
        &[node_id("a")],
        &mut tracker,
        &mut evaluator,
        &[],
    );
    assert_eq!(again[0].offense_count, 2);
    assert_eq!(again[0].penalty_amount, qty(1.5));
}

#[test]
fn counts_have_room_for_so_many_more() {
    let mut tracker = OffenseTracker::new(SlashingConfig::default());
    let mut evaluator = SeverityEvaluator::new();
    assert!(tracker.can_count(usize::MAX));
    assert!(evaluator.can_count(usize::MAX));
    tracker.record_offense_at(node_id("p"), at(0));
    evaluator.evaluate_severity(&context("p", at(0), 0, 5));
    assert!(tracker.can_count(usize::MAX - 1));
    assert!(!tracker.can_count(usize::MAX));
    assert!(evaluator.can_count(usize::MAX - 1));
    assert!(!evaluator.can_count(usize::MAX));
}
