use result_verifier::command::{CommandResult, ExeScriptCommandResult};
use result_verifier::consensus::{ConsensusOutcome, ResultHash};
use result_verifier::error::VerifierError;
use result_verifier::node::{create_node_id, NodeId};
use result_verifier::ordered_map::OrderedMap;
use result_verifier::requestor::{
    AgreementParty, CollectorConfig, ProviderAnswer, ResultCollector,
};
use result_verifier::result_collector::{ProviderResult, VerificationResult};
use result_verifier::time::{DateTime, Duration};

fn at(secs: i64) -> DateTime {
    DateTime::from_timestamp(secs, 0).unwrap()
}

fn batch(result: CommandResult) -> Vec<ExeScriptCommandResult> {
    vec![ExeScriptCommandResult {
        index: 0,
        result,
        stdout: None,
        stderr: None,
        message: None,
        is_batch_finished: true,
        event_date: at(0),
    }]
}

fn answer(name: &str, results: Option<Vec<ExeScriptCommandResult>>) -> ProviderAnswer {
    ProviderAnswer::Answered { provider_id: create_node_id(name), results }
}

fn result(id: NodeId, results: Vec<ExeScriptCommandResult>) -> ProviderResult {
    ProviderResult {
        provider_id: id,
        task_id: "task-b".to_string(),
        batch_id: "b".to_string(),
        results,
        timestamp: at(9),
    }
}

#[test]
fn test_collector_creation() {
    let collector = ResultCollector::new();
    assert_eq!(collector.config.collection_timeout, Duration::from_secs(300));
}

#[test]
fn collectors_wait_as_told() {
    assert_eq!(ResultCollector::default().config, CollectorConfig::default());
    assert_eq!(CollectorConfig::default().provider_timeout, Duration::from_secs(60));
    let config = CollectorConfig {
        collection_timeout: Duration::from_secs(1),
        provider_timeout: Duration::from_secs(2),
    };
    assert_eq!(ResultCollector::with_config(config).config, config);
}

#[test]
fn providers_with_a_known_activity_are_asked() {
    let party = |agreement: &str, provider: &str| AgreementParty {
        agreement_id: agreement.to_string(),
        provider_id: create_node_id(provider),
    };
    let mut activities = OrderedMap::new();
    activities.insert("ag1".to_string(), "act1".to_string());
    activities.insert("ag3".to_string(), "act3".to_string());
    let plan = ResultCollector::new()
        .plan_requests(&[party("ag3", "p3"), party("ag2", "p2"), party("ag1", "p1")], &activities);
    assert_eq!(plan.len(), 2);
    assert_eq!(plan[0].provider_id, create_node_id("p3"));
    assert_eq!(plan[0].activity_id, "act3");
    assert_eq!(plan[1].activity_id, "act1");
}

#[test]
fn answers_are_gathered_and_put_to_the_vote() {
    let collector = ResultCollector::new();
    let verdict = collector.conclude(
        Some(vec![
            answer("a", Some(batch(CommandResult::Success))),
            ProviderAnswer::Unreachable,
            answer("b", Some(batch(CommandResult::Success))),
            answer("c", None),
            answer("d", Some(batch(CommandResult::Success))),
            answer("e", Some(batch(CommandResult::Error))),
        ]),
        6,
        "b7",
        at(5),
    );
    match verdict {
        VerificationResult::Verified { result, votes, total, malicious_providers, .. } => {
            assert_eq!(result, batch(CommandResult::Success));
            assert_eq!((votes, total), (3, 4));
            assert_eq!(malicious_providers, vec![create_node_id("e")]);
        }
        other => panic!("unexpected {:?}", other),
    }
}

#[test]
fn gathered_results_are_labelled() {
    let verdict = ResultCollector::new().conclude(
        Some(vec![
            answer("a", Some(batch(CommandResult::Success))),
            answer("b", Some(batch(CommandResult::Error))),
        ]),
        2,
        "b7",
        at(5),
    );
    match verdict {
        VerificationResult::Failed { all_results, distribution, detected_malicious } => {
            assert_eq!(distribution.len(), 2);
            assert!(detected_malicious.is_empty());
            assert_eq!(all_results[0].task_id, "task-b7");
            assert_eq!(all_results[0].batch_id, "b7");
            assert_eq!(all_results[1].timestamp, at(5));
        }
        other => panic!("unexpected {:?}", other),
    }
}

#[test]
fn without_answers_the_vote_is_pending() {
    let collector = ResultCollector::new();
    assert_eq!(
        collector.conclude(None, 5, "b", at(0)),
        VerificationResult::Pending { received: 0, required: 4 }
    );
    assert_eq!(
        collector.conclude(Some(vec![ProviderAnswer::Unreachable]), 5, "b", at(0)),
        VerificationResult::Pending { received: 0, required: 1 }
    );
    assert_eq!(
        collector.verify_results(vec![]),
        VerificationResult::Pending { received: 0, required: 1 }
    );
}

#[test]
fn the_last_answer_of_a_provider_is_its_vote() {
    let a = create_node_id("a");
    let b = create_node_id("b");
    let verdict = ResultCollector::new().verify_results(vec![
        result(a, batch(CommandResult::Error)),
        result(b, batch(CommandResult::Success)),
        result(a, batch(CommandResult::Success)),
    ]);
    match verdict {
        VerificationResult::Verified { votes, total, honest_providers, .. } => {
            assert_eq!((votes, total), (2, 2));
            assert_eq!(honest_providers, vec![a, b]);
        }
        other => panic!("unexpected {:?}", other),
    }
}

#[test]
fn gathered_results_are_judged_by_the_outcome() {
    let a = create_node_id("a");
    let b = create_node_id("b");
    let given = vec![result(a, batch(CommandResult::Success)), result(b, vec![])];
    let vote = |hash: &str| ResultHash { hash: hash.to_string(), data: vec![1] };
    let mut hashes = OrderedMap::new();
    hashes.insert(a, vote("x"));
    hashes.insert(b, vote("y"));
    let collector = ResultCollector::new();
    let won = || Ok(ConsensusOutcome::Consensus { result: vote("y"), votes: 1, total: 2 });
    assert_eq!(
        collector.judge_results(given.clone(), &hashes, won(), Some(vec![])),
        VerificationResult::Verified {
            result: vec![],
            votes: 1,
            total: 2,
            honest_providers: vec![b],
            malicious_providers: vec![a],
            consensus_result_hash: "y".to_string(),
        }
    );
    let failed = |distribution: OrderedMap<String, usize>| VerificationResult::Failed {
        distribution,
        all_results: given.clone(),
        detected_malicious: vec![],
    };
    assert_eq!(
        collector.judge_results(given.clone(), &hashes, won(), None),
        failed(OrderedMap::new())
    );
    let refused = Err(VerifierError::InsufficientResults { received: 0, required: 1 });
    assert_eq!(
        collector.judge_results(given.clone(), &hashes, refused, Some(vec![])),
        failed(OrderedMap::new())
    );
    let mut distribution = OrderedMap::new();
    distribution.insert("x".to_string(), 1);
    distribution.insert("y".to_string(), 1);
    let split = Ok(ConsensusOutcome::NoConsensus { distribution: distribution.clone() });
    assert_eq!(collector.judge_results(given.clone(), &hashes, split, None), failed(distribution));
}
