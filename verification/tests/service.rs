use result_verifier::command::{CommandResult, ExeScriptCommandResult};
use result_verifier::error::VerifierError;
use result_verifier::fixed::Quantity;
use result_verifier::node::create_node_id;
use result_verifier::offense::OffenseSeverity;
use result_verifier::ordered_map::OrderedMap;
use result_verifier::result_collector::{ProviderResult, VerificationResult};
use result_verifier::service::{
    decide_wait, get_slashing_actions, get_slashing_actions_advanced,
    get_slashing_actions_with_severity, GetVerificationStatus, RegisterTask, SubmitResult,
    VerifierService, WaitDecision, WaitForVerification,
};
use result_verifier::severity::SeverityEvaluator;
use result_verifier::slashing::{OffenseTracker, SlashingConfig};
use result_verifier::time::{DateTime, Duration};

fn at(secs: i64) -> DateTime {
    DateTime::from_timestamp(secs, 0).unwrap()
}

fn register(task: &str, expected: usize) -> RegisterTask {
    RegisterTask {
        task_id: task.to_string(),
        batch_id: "batch1".to_string(),
        expected_providers: expected,
        timeout: Some(Duration::seconds(60)),
    }
}

fn submit(task: &str, name: &str, results: Vec<ExeScriptCommandResult>) -> SubmitResult {
    SubmitResult {
        result: ProviderResult {
            provider_id: create_node_id(name),
            task_id: task.to_string(),
            batch_id: "batch1".to_string(),
            results,
            timestamp: at(1),
        },
    }
}

fn ask(task: &str) -> GetVerificationStatus {
    GetVerificationStatus { task_id: task.to_string(), batch_id: "batch1".to_string() }
}

fn wait(task: &str, timeout: Option<Duration>) -> WaitForVerification {
    WaitForVerification { task_id: task.to_string(), batch_id: "batch1".to_string(), timeout }
}

fn done() -> Vec<ExeScriptCommandResult> {
    vec![ExeScriptCommandResult {
        index: 0,
        result: CommandResult::Success,
        stdout: None,
        stderr: None,
        message: None,
        is_batch_finished: true,
        event_date: at(0),
    }]
}

#[test]
fn test_register_and_submit() {
    let mut service = VerifierService::new(None);

    // Register task
    service
        .register_task(RegisterTask {
            task_id: "task1".to_string(),
            batch_id: "batch1".to_string(),
            expected_providers: 3,
            timeout: Some(Duration::seconds(60)),
        })
        .unwrap();

    // Submit result
    service.submit_result(submit("task1", "provider1", vec![])).unwrap();

    // Get status
    let status = service.get_verification_status(&ask("task1")).unwrap();
    match status {
        VerificationResult::Pending { received, .. } => {
            assert_eq!(received, 1);
        }
        _ => panic!("Expected pending status"),
    }
}

#[test]
fn tasks_are_announced_once() {
    let mut service = VerifierService::new(Some(SlashingConfig::default()));
    service.register_task_at(register("task1", 3), at(0)).unwrap();
    let error = service.register_task_at(register("task1", 4), at(1)).unwrap_err();
    assert_eq!(error.to_text(), "Internal error: Task task1:batch1 already registered");
    service.register_task_at(register("task2", 4), at(1)).unwrap();
    assert_eq!(
        service.get_verification_status(&ask("task1")).unwrap(),
        VerificationResult::Pending { received: 0, required: 3 }
    );
    service.get_or_create_collector_at("task1".to_string(), "batch1".to_string(), 9, None, at(2));
    service.get_or_create_collector_at("task3".to_string(), "batch1".to_string(), 9, None, at(2));
    assert_eq!(
        service.get_verification_status(&ask("task1")).unwrap(),
        VerificationResult::Pending { received: 0, required: 3 }
    );
    assert_eq!(
        service.get_verification_status(&ask("task3")).unwrap(),
        VerificationResult::Pending { received: 0, required: 9 }
    );
}

#[test]
fn unknown_tasks_are_not_found() {
    let mut service = VerifierService::new(None);
    let error = service.submit_result(submit("nope", "a", vec![])).unwrap_err();
    assert_eq!(error.to_text(), "Task not found: nope:batch1");
    let error = service.get_verification_status(&ask("nope")).unwrap_err();
    assert_eq!(error.to_text(), "Task not found: nope:batch1");
    match service.wait_for_verification(&wait("nope", None), at(0), at(0)) {
        WaitDecision::Finished(Err(VerifierError::TaskNotFound(key))) => {
            assert_eq!(key, "nope:batch1");
        }
        other => panic!("unexpected {:?}", other),
    }
    assert!(service.get_collector("nope", "batch1").is_err());
    assert_eq!(VerifierService::get_collector_key("a", "b"), "a:b");
}

#[test]
fn tasks_do_not_mix() {
    let mut service = VerifierService::new(None);
    service.register_task_at(register("task1", 1), at(0)).unwrap();
    service.register_task_at(register("task2", 1), at(0)).unwrap();
    service.submit_result(submit("task1", "a", done())).unwrap();
    let error = service.submit_result(submit("task1", "a", vec![])).unwrap_err();
    assert!(matches!(error, VerifierError::DuplicateProvider(_)));
    assert!(matches!(
        service.get_verification_status(&ask("task1")).unwrap(),
        VerificationResult::Verified { votes: 1, .. }
    ));
    assert_eq!(
        service.get_verification_status(&ask("task2")).unwrap(),
        VerificationResult::Pending { received: 0, required: 1 }
    );
    assert_eq!(service.get_collector("task1", "batch1").unwrap().result_count(), 1);
}

#[test]
fn colons_in_names_can_lead_to_the_wrong_collector() {
    let mut service = VerifierService::new(None);
    service
        .register_task_at(
            RegisterTask {
                task_id: "a:b".to_string(),
                batch_id: "c".to_string(),
                expected_providers: 1,
                timeout: None,
            },
            at(0),
        )
        .unwrap();
    let stray = SubmitResult {
        result: ProviderResult {
            provider_id: create_node_id("x"),
            task_id: "a".to_string(),
            batch_id: "b:c".to_string(),
            results: vec![],
            timestamp: at(0),
        },
    };
    assert_eq!(
        service.submit_result(stray).unwrap_err().to_text(),
        "Invalid result format: Task ID mismatch: expected a:b, got a"
    );
}

#[test]
fn waiting_ends_with_a_verdict_or_in_time() {
    let mut service = VerifierService::new(None);
    service.register_task_at(register("task1", 1), at(0)).unwrap();
    let patient = wait("task1", Some(Duration::seconds(5)));
    match service.wait_for_verification(&patient, at(100), at(105)) {
        WaitDecision::Again(pause) => assert_eq!(pause, Duration::milliseconds(100)),
        other => panic!("unexpected {:?}", other),
    }
    match service.wait_for_verification(&patient, at(100), at(106)) {
        WaitDecision::Finished(Err(error)) => assert_eq!(
            error.to_text(),
            format!(
                "Timeout waiting for results: Timeout waiting for verification after {:?}",
                chrono::Duration::seconds(6)
            )
        ),
        other => panic!("unexpected {:?}", other),
    }
    // Without a timeout a minute is waited.
    assert!(matches!(
        service.wait_for_verification(&wait("task1", None), at(100), at(160)),
        WaitDecision::Again(_)
    ));
    assert!(matches!(
        service.wait_for_verification(&wait("task1", None), at(100), at(161)),
        WaitDecision::Finished(Err(VerifierError::Timeout(_)))
    ));
    service.submit_result(submit("task1", "a", done())).unwrap();
    assert!(matches!(
        service.wait_for_verification(&patient, at(100), at(900)),
        WaitDecision::Finished(Ok(VerificationResult::Verified { .. }))
    ));
    let failed = VerificationResult::Failed {
        distribution: OrderedMap::new(),
        all_results: vec![],
        detected_malicious: vec![],
    };
    assert!(matches!(
        decide_wait(failed.clone(), None, at(0), at(0)),
        WaitDecision::Finished(Ok(VerificationResult::Failed { .. }))
    ));
}

#[test]
fn penalties_through_the_service() {
    let mut tracker = OffenseTracker::new(SlashingConfig::default());
    let mut evaluator = SeverityEvaluator::new();
    let ids = [create_node_id("a")];
    assert_eq!(get_slashing_actions(&ids, &mut tracker)[0].offense_count, 1);
    let second = get_slashing_actions_with_severity(&ids, &mut tracker, &mut evaluator, &[]);
    assert_eq!(second[0].offense_count, 2);
    assert_eq!(second[0].severity, OffenseSeverity::Minor);
    let mut stakes = OrderedMap::new();
    stakes.insert(ids[0], Quantity { micros: 1_000_000_000 });
    let third =
        get_slashing_actions_advanced(&ids, &mut tracker, &mut evaluator, &[], &stakes);
    assert_eq!(third[0].offense_count, 3);
    assert_eq!(third[0].penalty_amount, Quantity { micros: 22_500_000 });
}
