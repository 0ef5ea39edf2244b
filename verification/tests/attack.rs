use result_verifier::attack_checks::{
    judge_cost_fraud, judge_escalation, judge_exhaustion, judge_hybrid, judge_inflation,
    judge_injection, judge_manipulation,
};
use result_verifier::attack_tests::{
    generate_test_report, judge_collusion, judge_insufficient_honest, judge_partial_tampering,
    judge_random_errors, run_all_attack_tests, run_all_attack_tests_at, test_collusion_attack,
    test_cost_fraud_attack, test_escalating_attack, test_format_injection_attack,
    test_hybrid_attack, test_insufficient_honest_providers, test_partial_result_tampering,
    test_random_error_attack, test_resource_exhaustion_attack, test_resource_inflation_attack,
    test_slashing_mechanism, test_timestamp_manipulation_attack, AttackTestResult,
};
use result_verifier::command::{CommandResult, ExeScriptCommandResult};
use result_verifier::fixed::Decimal;
use result_verifier::node::{create_node_id, NodeId};
use result_verifier::offense::{OffenseSeverity, OffenseType};
use result_verifier::ordered_map::OrderedMap;
use result_verifier::result_collector::{ProviderResult, VerificationResult};
use result_verifier::result_validator::ValidationResult;
use result_verifier::service::{
    GetVerificationStatus, RegisterTask, SubmitResult, VerifierService,
};
use result_verifier::time::{DateTime, Duration};

fn at(secs: i64) -> DateTime {
    DateTime::from_timestamp(secs, 0).unwrap()
}

fn ids(n: usize) -> Vec<NodeId> {
    (0..n).map(|i| create_node_id(&format!("m{}", i))).collect()
}

fn verified(malicious: Vec<NodeId>) -> Option<VerificationResult> {
    Some(VerificationResult::Verified {
        result: vec![],
        votes: 4,
        total: 5,
        honest_providers: vec![],
        malicious_providers: malicious,
        consensus_result_hash: "h".to_string(),
    })
}

fn failed(detected: Vec<NodeId>) -> Option<VerificationResult> {
    Some(VerificationResult::Failed {
        distribution: OrderedMap::new(),
        all_results: vec![],
        detected_malicious: detected,
    })
}

fn found(is_valid: bool, offenses: Vec<OffenseType>, errors: usize) -> ValidationResult {
    ValidationResult { is_valid, offenses, errors: vec!["e".to_string(); errors] }
}

#[test]
fn test_attack_tests() {
    let results = run_all_attack_tests();
    let report = generate_test_report(&results);
    println!("{}", report);

    // At least some attacks should be blocked
    let blocked_count = results.iter().filter(|r| r.attack_blocked).count();
    assert!(blocked_count > 0, "At least some attacks should be blocked");
}

#[test]
fn attacks_end_as_they_should() {
    let results = run_all_attack_tests_at(at(1_800_000_000));
    let names: Vec<&str> = results.iter().map(|r| r.test_name.as_str()).collect();
    assert_eq!(
        names,
        vec![
            "Collusion Attack",
            "Random Error Attack",
            "Insufficient Honest Providers",
            "Slashing Mechanism with Severity",
            "Resource Inflation Attack",
            "Cost Fraud Attack",
            "Timestamp Manipulation Attack",
            "Escalating Attack",
            "Hybrid Attack",
            "Partial Result Tampering",
            "Resource Exhaustion Attack",
            "Format Injection Attack",
        ]
    );
    let blocked: Vec<bool> = results.iter().map(|r| r.attack_blocked).collect();
    assert_eq!(
        blocked,
        vec![true, true, true, true, true, true, true, true, true, false, true, true]
    );
    let actions: Vec<usize> = results.iter().map(|r| r.slashing_actions).collect();
    assert_eq!(actions, vec![2, 2, 0, 3, 3, 1, 1, 3, 3, 0, 3, 3]);
    assert_eq!(
        results[0].details,
        "共谋攻击已检测: 识别出3个共谋节点. 共谋攻击已检测: 识别出2个共谋节点"
    );
    assert_eq!(
        results[0].malicious_providers,
        vec![create_node_id("honest_0"), create_node_id("honest_1")]
    );
    assert_eq!(
        results[1].details,
        "随机错误攻击已检测: 识别出2个错误节点. 严重程度: Minor (随机错误，无共谋)"
    );
    assert_eq!(
        results[1].malicious_providers,
        vec![create_node_id("error_provider_0"), create_node_id("error_provider_1")]
    );
    assert_eq!(
        results[2].details,
        "Attack blocked: No consensus reached due to insufficient honest providers"
    );
    assert_eq!(
        results[3].details,
        "惩罚机制工作正常: 首次违规严重程度 Minor, 重复违规严重程度 Moderate"
    );
    assert_eq!(
        results[3].malicious_providers,
        vec![create_node_id("repeat_offender"), create_node_id("first_time")]
    );
    assert_eq!(results[4].details, "资源夸大攻击已检测: 发现 3 个资源夸大违规");
    assert_eq!(
        results[5].details,
        "成本欺诈攻击已检测: 报告成本 1.15, 共识成本 1.00, 差异 15.00%"
    );
    assert_eq!(
        results[6].details,
        "时间戳篡改攻击已检测: 时间差 400 秒 (超过允许的 300 秒)"
    );
    assert_eq!(
        results[7].details,
        "渐进式攻击检测: 发现 3 个违规阶段, 严重程度变化: [Minor, Moderate, Moderate], 攻击已阻止并识别严重程度升级"
    );
    assert_eq!(results[7].malicious_providers, vec![create_node_id("escalating_attacker")]);
    assert_eq!(results[8].details, "混合攻击检测: 发现 3 种违规类型, 部分违规类型已检测");
    assert_eq!(results[9].details, "部分结果篡改攻击: 未检测到篡改");
    assert!(results[9].malicious_providers.is_empty());
    assert_eq!(results[10].details, "资源耗尽攻击已检测: 检测到异常大的资源使用量");
    assert_eq!(results[11].details, "格式注入攻击已检测: 发现 3 个格式违规");
    assert_eq!(results[0].clone(), results[0]);
}

#[test]
fn attacks_by_the_clock() {
    assert!(test_collusion_attack().attack_blocked);
    assert!(test_random_error_attack().attack_blocked);
    assert!(test_insufficient_honest_providers().attack_blocked);
    assert!(test_slashing_mechanism().attack_blocked);
    assert!(test_resource_inflation_attack().attack_blocked);
    assert!(test_cost_fraud_attack().attack_blocked);
    assert!(test_timestamp_manipulation_attack().attack_blocked);
    assert!(test_escalating_attack().attack_blocked);
    assert!(test_hybrid_attack().attack_blocked);
    assert!(!test_partial_result_tampering().attack_blocked);
    assert!(test_resource_exhaustion_attack().attack_blocked);
    assert!(test_format_injection_attack().attack_blocked);
}

#[test]
fn tamperers_are_named_without_a_consensus() {
    let now = at(1_800_000_000);
    let batch = |second: CommandResult| {
        [(0, CommandResult::Success, false), (1, second, true)]
            .into_iter()
            .map(|(index, result, is_batch_finished)| ExeScriptCommandResult {
                index,
                result,
                stdout: None,
                stderr: None,
                message: None,
                is_batch_finished,
                event_date: now,
            })
            .collect::<Vec<_>>()
    };
    let mut service = VerifierService::new(None);
    service
        .register_task(RegisterTask {
            task_id: "tampering".to_string(),
            batch_id: "batch1".to_string(),
            expected_providers: 5,
            timeout: Some(Duration::seconds(10)),
        })
        .unwrap();
    let names = ["honest_0", "honest_1", "honest_2", "tamperer_0", "tamperer_1"];
    for (i, name) in names.iter().enumerate() {
        let second = if i < 3 { CommandResult::Success } else { CommandResult::Error };
        let result = ProviderResult {
            provider_id: create_node_id(name),
            task_id: "tampering".to_string(),
            batch_id: "batch1".to_string(),
            results: batch(second),
            timestamp: now,
        };
        service.submit_result(SubmitResult { result }).unwrap();
    }
    let asked = GetVerificationStatus {
        task_id: "tampering".to_string(),
        batch_id: "batch1".to_string(),
    };
    let verdict = service.get_verification_status(&asked).unwrap();
    match &verdict {
        VerificationResult::Failed { detected_malicious, .. } => assert_eq!(
            *detected_malicious,
            vec![create_node_id("tamperer_0"), create_node_id("tamperer_1")]
        ),
        other => panic!("unexpected {:?}", other),
    }
    assert!(!judge_partial_tampering(Some(verdict)).attack_blocked);
}

#[test]
fn collusion_is_judged_by_the_verdict() {
    let r = judge_collusion(verified(ids(3)), 5, at(0));
    assert!(r.attack_blocked);
    assert_eq!(
        r.details,
        "共谋攻击已检测: 识别出3个共谋节点. 严重程度: Severe (共谋比例: 60.0%)"
    );
    assert_eq!(r.slashing_actions, 3);
    let r = judge_collusion(verified(ids(1)), 5, at(0));
    assert!(!r.attack_blocked);
    assert_eq!(r.details, "共谋攻击成功: 验证器接受了错误结果");
    assert_eq!(r.malicious_providers, ids(1));
    let r = judge_collusion(failed(vec![]), 5, at(0));
    assert!(r.attack_blocked);
    assert_eq!(
        r.details,
        "共谋攻击已检测: 识别出3个共谋节点. 共谋攻击: 未达成共识，但未识别出共谋节点"
    );
    assert!(!judge_collusion(None, 5, at(0)).attack_blocked);
}

#[test]
fn random_errors_are_judged_by_the_verdict() {
    let r = judge_random_errors(verified(ids(2)), 6, at(0));
    assert!(r.attack_blocked);
    assert_eq!(
        r.details,
        "随机错误攻击已检测: 识别出2个错误节点. 严重程度: Minor (随机错误，无共谋)"
    );
    assert!(!judge_random_errors(verified(vec![]), 6, at(0)).attack_blocked);
    let r = judge_random_errors(failed(ids(2)), 6, at(0));
    assert!(r.attack_blocked);
    assert_eq!(r.malicious_providers, ids(2));
    assert_eq!(r.slashing_actions, 2);
    let r = judge_random_errors(failed(ids(3)), 6, at(0));
    assert!(!r.attack_blocked);
    assert_eq!(r.details, "随机错误攻击: 部分错误未检测到");
    assert_eq!(r.slashing_actions, 3);
    let r = judge_random_errors(None, 6, at(0));
    assert!(!r.attack_blocked);
    assert_eq!(r.details, "随机错误攻击: 部分错误未检测到");
    assert_eq!(r.slashing_actions, 0);
}

#[test]
fn other_verdicts_are_judged() {
    assert!(!judge_insufficient_honest(verified(vec![])).attack_blocked);
    assert_eq!(
        judge_insufficient_honest(None).details,
        "Attack succeeded: Consensus reached with insufficient honest providers"
    );
    let r = judge_partial_tampering(verified(ids(2)));
    assert!(r.attack_blocked);
    assert_eq!(r.details, "部分结果篡改攻击已检测: 识别出篡改的Provider");
    let r = judge_partial_tampering(verified(vec![]));
    assert!(!r.attack_blocked);
    assert_eq!(r.details, "部分结果篡改攻击已检测: 识别出篡改的Provider");
    assert_eq!(r.slashing_actions, 0);
    for nothing in [failed(ids(1)), failed(vec![]), None] {
        let r = judge_partial_tampering(nothing);
        assert!(!r.attack_blocked);
        assert!(r.malicious_providers.is_empty());
        assert_eq!(r.slashing_actions, 0);
        assert_eq!(r.details, "部分结果篡改攻击: 未检测到篡改");
    }
}

#[test]
fn findings_are_judged() {
    let violation = || OffenseType::FormatViolation { violation: "v".to_string() };
    let anomaly = || OffenseType::TimestampAnomaly {
        reported_time: at(9),
        expected_time: at(0),
        time_difference_secs: 9,
    };
    assert_eq!(judge_inflation(&found(true, vec![], 0)).details, "资源夸大攻击: 未检测到异常");
    let r = judge_inflation(&found(
        false,
        vec![OffenseType::Multiple(vec![violation(), anomaly()]), violation()],
        0,
    ));
    assert_eq!((r.attack_blocked, r.slashing_actions), (true, 0));
    let r = judge_cost_fraud(
        &found(false, vec![violation()], 1),
        Decimal { micros: 1 },
        Decimal { micros: 1 },
    );
    assert_eq!(r.details, "成本欺诈攻击: 未检测到异常");
    assert_eq!((r.attack_blocked, r.slashing_actions), (true, 0));
    let r = judge_manipulation(&found(false, vec![anomaly()], 1), at(9), at(0), 5);
    assert_eq!(r.details, "时间戳篡改攻击已检测: 时间差 9 秒 (超过允许的 5 秒)");
    let r = judge_manipulation(&found(true, vec![], 0), at(9), at(0), 5);
    assert_eq!(r.details, "时间戳篡改攻击: 未检测到异常");
    let r = judge_exhaustion(&found(false, vec![violation()], 1));
    assert_eq!(r.details, "资源耗尽攻击: 部分检测到异常");
    assert_eq!(judge_exhaustion(&found(true, vec![], 0)).details, "资源耗尽攻击: 未检测到异常");
    let r = judge_injection(&found(false, vec![anomaly()], 1));
    assert_eq!(r.details, "格式注入攻击: 部分检测到异常");
    assert_eq!(judge_injection(&found(true, vec![], 0)).details, "格式注入攻击: 未检测到异常");
    let r = judge_hybrid(&vec![OffenseType::Multiple(vec![violation()])]);
    assert_eq!(r.details, "混合攻击检测: 发现 1 种违规类型, 检测到多重违规组合");
    assert_eq!(judge_hybrid(&vec![]).details, "混合攻击检测: 发现 0 种违规类型, 攻击成功");
    let r = judge_escalation(1, &vec![OffenseSeverity::Minor], ids(1)[0]);
    assert_eq!(
        r.details,
        "渐进式攻击检测: 发现 1 个违规阶段, 严重程度变化: [Minor], 攻击部分成功"
    );
    assert!(r.malicious_providers.is_empty());
    let r = judge_escalation(
        2,
        &vec![OffenseSeverity::Severe, OffenseSeverity::Minor],
        ids(1)[0],
    );
    assert_eq!(
        r.details,
        "渐进式攻击检测: 发现 2 个违规阶段, 严重程度变化: [Severe, Minor], 攻击部分成功"
    );
}

#[test]
fn the_report_sums_up() {
    let entry = |blocked: bool| AttackTestResult {
        test_name: "T".to_string(),
        attack_blocked: blocked,
        details: "D".to_string(),
        malicious_providers: ids(2),
        slashing_actions: 4,
    };
    let report = generate_test_report(&[entry(true), entry(false), entry(true)]);
    let one = |status: &str| {
        format!(
            "Test: T\n  Status: {}\n  Details: D\n  Malicious Providers Identified: 2\n  Slashing Actions: 4\n\n",
            status
        )
    };
    let expected = format!(
        "=== Verifier Attack Test Report ===\n\n{}{}{}Summary:\n  Total Tests: 3\n  Attacks Blocked: 2\n  Attacks Succeeded: 1\n  Success Rate: 66.7%\n",
        one("BLOCKED"),
        one("SUCCEEDED"),
        one("BLOCKED")
    );
    assert_eq!(report, expected);
    assert!(generate_test_report(&[]).ends_with("Success Rate: NaN%\n"));
}
