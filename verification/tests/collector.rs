use result_verifier::command::{CommandOutput, CommandResult, ExeScriptCommandResult};
use result_verifier::consensus::{ConsensusOutcome, ResultHash};
use result_verifier::digest::fingerprint;
use result_verifier::error::VerifierError;
use result_verifier::node::{create_node_id, NodeId};
use result_verifier::offense::OffenseType;
use result_verifier::ordered_map::OrderedMap;
use result_verifier::result_collector::{
    contexts_of_votes, judge, ProviderResult, ResultCollector, VerificationResult,
};
use result_verifier::time::{DateTime, Duration};

fn at(secs: i64) -> DateTime {
    DateTime::from_timestamp(secs, 0).unwrap()
}

fn command(result: CommandResult) -> ExeScriptCommandResult {
    ExeScriptCommandResult {
        index: 0,
        result,
        stdout: None,
        stderr: None,
        message: None,
        is_batch_finished: true,
        event_date: at(1_703_932_200),
    }
}

fn batch(result: CommandResult) -> Vec<ExeScriptCommandResult> {
    vec![command(result)]
}

fn submit(name: &str, results: Vec<ExeScriptCommandResult>) -> ProviderResult {
    ProviderResult {
        provider_id: create_node_id(name),
        task_id: "task1".to_string(),
        batch_id: "batch1".to_string(),
        results,
        timestamp: at(50),
    }
}

fn collector(expected: usize) -> ResultCollector {
    ResultCollector::new_at("task1".to_string(), "batch1".to_string(), expected, None, at(0))
}

fn ids(names: &[&str]) -> Vec<NodeId> {
    names.iter().map(|n| create_node_id(n)).collect()
}

#[test]
fn a_quorum_is_verified_and_the_rest_is_named() {
    let mut c = collector(4);
    for name in ["a", "b", "c"] {
        c.submit_result(submit(name, batch(CommandResult::Success))).unwrap();
    }
    c.submit_result(submit("d", batch(CommandResult::Error))).unwrap();
    match c.get_status() {
        VerificationResult::Verified {
            result,
            votes,
            total,
            honest_providers,
            malicious_providers,
            consensus_result_hash,
        } => {
            assert_eq!(result, batch(CommandResult::Success));
            assert_eq!((votes, total), (3, 4));
            assert_eq!(honest_providers, ids(&["a", "b", "c"]));
            assert_eq!(malicious_providers, ids(&["d"]));
            let json = concat_json(
                "[{\"index\":0,\"result\":\"Ok\",\"stdout\":null,\"stderr\":null,",
                "\"message\":null,\"isBatchFinished\":true,",
                "\"eventDate\":\"2023-12-30T10:30:00Z\"}]",
            );
            assert_eq!(consensus_result_hash, fingerprint(json.as_bytes()));
        }
        other => panic!("unexpected {:?}", other),
    }
}

fn concat_json(a: &str, b: &str, c: &str) -> String {
    format!("{}{}{}", a, b, c)
}

#[test]
fn what_is_verified_is_what_was_submitted() {
    let mut rich = command(CommandResult::Error);
    rich.index = 7;
    rich.stdout = Some(CommandOutput::Str("[1,2] \"quoted\" 违规".to_string()));
    rich.stderr = Some(CommandOutput::Bin(vec![0, 1, 255]));
    rich.message = Some("line\nbreak".to_string());
    rich.is_batch_finished = false;
    // A leap second far outside of four-digit years.
    rich.event_date = DateTime::from_timestamp(400_000_000_019, 1_234_567_890).unwrap();
    let mut early = command(CommandResult::Success);
    early.event_date = DateTime::from_timestamp(-8_334_601_228_800, 1).unwrap();
    let sent = vec![rich, early];
    let mut c = collector(1);
    c.submit_result(submit("a", sent.clone())).unwrap();
    match c.get_status() {
        VerificationResult::Verified { result, votes, total, .. } => {
            assert_eq!(result, sent);
            assert_eq!((votes, total), (1, 1));
        }
        other => panic!("unexpected {:?}", other),
    }
}

#[test]
fn there_is_no_verdict_before_all_have_answered() {
    let mut c = collector(5);
    for i in 0..4 {
        assert_eq!(c.get_status(), VerificationResult::Pending { received: i, required: 5 });
        c.submit_result(submit(&format!("p{}", i), batch(CommandResult::Success))).unwrap();
    }
    // Four of five would be a quorum, but the fifth is still to come.
    assert!(c.has_sufficient_results());
    assert_eq!(c.get_status(), VerificationResult::Pending { received: 4, required: 5 });
    c.submit_result(submit("p4", batch(CommandResult::Success))).unwrap();
    assert!(matches!(c.get_status(), VerificationResult::Verified { votes: 5, total: 5, .. }));
    assert_eq!(c.result_count(), 5);
    assert_eq!(c.get_all_results().len(), 5);
}

#[test]
fn nothing_expected_and_nothing_received_is_pending() {
    assert_eq!(collector(0).get_status(), VerificationResult::Pending { received: 0, required: 0 });
    assert!(collector(0).has_sufficient_results());
    assert!(!collector(1).has_sufficient_results());
}

#[test]
fn without_a_quorum_outliers_are_named() {
    let mut c = collector(5);
    for name in ["h0", "h1"] {
        c.submit_result(submit(name, batch(CommandResult::Success))).unwrap();
    }
    for name in ["c0", "c1", "c2"] {
        c.submit_result(submit(name, batch(CommandResult::Error))).unwrap();
    }
    match c.get_status() {
        VerificationResult::Failed { distribution, all_results, detected_malicious } => {
            assert_eq!(distribution.len(), 2);
            assert_eq!(*distribution.value_at(0), 2);
            assert_eq!(*distribution.value_at(1), 3);
            assert_eq!(all_results.len(), 5);
            // The majority of three is the wrong one, so the other two stand out.
            assert_eq!(detected_malicious, ids(&["h0", "h1"]));
        }
        other => panic!("unexpected {:?}", other),
    }
}

#[test]
fn dissenters_that_match_every_command_are_named_too() {
    // Only messages differ: no command deviates, but the fingerprints do.
    let mut noisy = command(CommandResult::Success);
    noisy.message = Some("hi".to_string());
    let mut c = collector(3);
    c.submit_result(submit("a", batch(CommandResult::Success))).unwrap();
    c.submit_result(submit("b", batch(CommandResult::Success))).unwrap();
    c.submit_result(submit("c", vec![noisy])).unwrap();
    match c.get_status() {
        VerificationResult::Failed { detected_malicious, .. } => {
            assert_eq!(detected_malicious, ids(&["c"]));
        }
        other => panic!("unexpected {:?}", other),
    }
}

#[test]
fn results_for_something_else_are_refused() {
    let mut c = collector(2);
    let mut wrong_task = submit("a", vec![]);
    wrong_task.task_id = "task2".to_string();
    assert_eq!(
        c.submit_result(wrong_task).unwrap_err().to_text(),
        "Invalid result format: Task ID mismatch: expected task1, got task2"
    );
    let mut wrong_batch = submit("a", vec![]);
    wrong_batch.batch_id = "batch2".to_string();
    assert_eq!(
        c.submit_result(wrong_batch).unwrap_err().to_text(),
        "Invalid result format: Batch ID mismatch: expected batch1, got batch2"
    );
    assert_eq!(c.result_count(), 0);
    c.submit_result(submit("a", vec![])).unwrap();
    assert_eq!(
        c.submit_result(submit("a", batch(CommandResult::Error))).unwrap_err().to_text(),
        format!("Provider already submitted result: {}", create_node_id("a").to_text())
    );
    assert_eq!(c.result_count(), 1);
    assert!(c.get_all_results()[0].results.is_empty());
}

#[test]
fn collecting_can_time_out() {
    let c = ResultCollector::new_at(
        "t".to_string(),
        "b".to_string(),
        1,
        Some(Duration::seconds(10)),
        at(100),
    );
    assert!(!c.is_timeout_at(at(110)));
    assert!(c.is_timeout_at(at(111)));
    assert!(!collector(1).is_timeout_at(at(1_000_000)));
    let by_the_clock = ResultCollector::new(
        "t".to_string(),
        "b".to_string(),
        1,
        Some(Duration::seconds(1000)),
    );
    assert!(!by_the_clock.is_timeout());
    let over = ResultCollector::new(
        "t".to_string(),
        "b".to_string(),
        1,
        Some(Duration::seconds(-1000)),
    );
    assert!(over.is_timeout());
}

#[test]
fn contexts_name_the_colluders() {
    let mut c = collector(5);
    c.submit_result(submit("h", batch(CommandResult::Success))).unwrap();
    c.submit_result(submit("x", batch(CommandResult::Error))).unwrap();
    c.submit_result(submit("y", batch(CommandResult::Error))).unwrap();
    let mut odd = command(CommandResult::Success);
    odd.index = 3;
    c.submit_result(submit("z", vec![odd])).unwrap();
    let accused = ids(&["x", "z", "nobody", "y"]);
    let contexts = c.generate_offense_contexts_at(&accused, "correct", at(2_000_000_000));
    assert_eq!(contexts.len(), 3);
    assert_eq!(contexts[0].provider_id, create_node_id("x"));
    assert_eq!(contexts[0].colluding_providers, ids(&["y"]));
    assert_eq!(contexts[0].offense_type, OffenseType::WrongResult);
    assert_eq!(contexts[0].offense_time, at(50));
    assert_eq!(contexts[0].correct_result_hash, "correct");
    assert_eq!(contexts[0].total_providers, 4);
    assert_eq!(contexts[0].malicious_count, 4);
    assert_eq!(contexts[1].provider_id, create_node_id("z"));
    assert!(contexts[1].colluding_providers.is_empty());
    assert_eq!(
        contexts[1].offense_type,
        OffenseType::FormatViolation {
            violation: "Index discontinuity: expected 0, got 3".to_string()
        }
    );
    assert_eq!(contexts[2].colluding_providers, ids(&["x"]));
    assert_eq!(contexts[0].wrong_result_hash, contexts[2].wrong_result_hash);
    let now = c.generate_offense_contexts(&accused, "correct");
    assert_eq!(now.len(), 3);
    // Seen from long before, the command lies in the future.
    let before = c.generate_offense_contexts_at(&ids(&["x"]), "correct", at(0));
    assert_eq!(
        before[0].offense_type,
        OffenseType::TimestampAnomaly {
            reported_time: at(1_703_932_200),
            expected_time: at(0),
            time_difference_secs: 1_703_932_200,
        }
    );
}

fn vote(hash: &str) -> ResultHash {
    ResultHash { hash: hash.to_string(), data: hash.as_bytes().to_vec() }
}

fn submissions(names: &[&str]) -> OrderedMap<NodeId, ProviderResult> {
    let mut all = OrderedMap::new();
    for name in names {
        all.insert(create_node_id(name), submit(name, batch(CommandResult::Success)));
    }
    all
}

fn votes(entries: &[(&str, &str)]) -> OrderedMap<NodeId, ResultHash> {
    let mut all = OrderedMap::new();
    for (name, hash) in entries {
        all.insert(create_node_id(name), vote(hash));
    }
    all
}

#[test]
fn verdicts_follow_the_outcome_of_the_vote() {
    let results = submissions(&["a", "b", "c"]);
    let hashes = votes(&[("a", "x"), ("b", "y"), ("c", "x")]);
    let won = || Ok(ConsensusOutcome::Consensus { result: vote("x"), votes: 2, total: 3 });
    assert_eq!(
        judge(&results, &hashes, won(), Some(batch(CommandResult::Error))),
        VerificationResult::Verified {
            result: batch(CommandResult::Error),
            votes: 2,
            total: 3,
            honest_providers: ids(&["a", "c"]),
            malicious_providers: ids(&["b"]),
            consensus_result_hash: "x".to_string(),
        }
    );
    let nothing = VerificationResult::Failed {
        distribution: OrderedMap::new(),
        all_results: ["a", "b", "c"].map(|n| submit(n, batch(CommandResult::Success))).to_vec(),
        detected_malicious: vec![],
    };
    // The data of the winner cannot be read, or there was no vote at all.
    assert_eq!(judge(&results, &hashes, won(), None), nothing);
    let refused = Err(VerifierError::InsufficientResults { received: 0, required: 1 });
    assert_eq!(judge(&results, &hashes, refused, Some(batch(CommandResult::Error))), nothing);
}

#[test]
fn outliers_are_those_who_do_not_support_the_leader() {
    let results = submissions(&["a", "b", "c"]);
    let mut distribution = OrderedMap::new();
    distribution.insert("x".to_string(), 1);
    distribution.insert("y".to_string(), 1);
    // Of equals the first leads. No vote is known of the third provider.
    let split = Ok(ConsensusOutcome::NoConsensus { distribution: distribution.clone() });
    assert_eq!(
        judge(&results, &votes(&[("b", "y"), ("a", "x")]), split, None),
        VerificationResult::Failed {
            distribution,
            all_results: ["a", "b", "c"].map(|n| submit(n, batch(CommandResult::Success))).to_vec(),
            detected_malicious: ids(&["b"]),
        }
    );
}

#[test]
fn colluders_are_accused_of_the_same_fingerprint() {
    let results = submissions(&["a", "b", "c", "d"]);
    let hashes = votes(&[("a", "x"), ("b", "x"), ("c", "x")]);
    let accused = ids(&["b", "d", "a"]);
    let contexts = contexts_of_votes(&results, &hashes, &accused, "right", at(2_000_000_000));
    // The last of the four has no fingerprint, and the third is not accused.
    assert_eq!(contexts.len(), 2);
    assert_eq!(contexts[0].provider_id, create_node_id("b"));
    assert_eq!(contexts[0].colluding_providers, ids(&["a"]));
    assert_eq!(contexts[0].wrong_result_hash, "x");
    assert_eq!(contexts[0].correct_result_hash, "right");
    assert_eq!((contexts[0].total_providers, contexts[0].malicious_count), (4, 3));
    assert_eq!(contexts[1].provider_id, create_node_id("a"));
    assert_eq!(contexts[1].colluding_providers, ids(&["b"]));
}

#[test]
fn the_first_and_the_last_instant_are_read_back() {
    for (secs, nanos) in [
        (-8_334_601_228_800, 0),
        (-8_334_601_228_741, 1_999_999_999),
        (-62_167_219_201, 999_999_999),
        (253_402_300_799, 1_000_000_001),
        (8_210_266_876_799, 1_999_999_999),
    ] {
        let mut edge = command(CommandResult::Success);
        edge.event_date = DateTime::from_timestamp(secs, nanos).unwrap();
        let mut c = collector(1);
        c.submit_result(submit("a", vec![edge.clone()])).unwrap();
        match c.get_status() {
            VerificationResult::Verified { result, .. } => assert_eq!(result, vec![edge]),
            other => panic!("unexpected {:?}", other),
        }
    }
}

#[test]
fn a_majority_without_a_quorum_names_the_others() {
    let mut c = collector(6);
    let mut odd = command(CommandResult::Error);
    odd.message = Some("odd".to_string());
    c.submit_result(submit("x", vec![odd])).unwrap();
    for name in ["a", "b", "c", "d"] {
        c.submit_result(submit(name, batch(CommandResult::Success))).unwrap();
    }
    c.submit_result(submit("y", batch(CommandResult::Error))).unwrap();
    match c.get_status() {
        VerificationResult::Failed { detected_malicious, .. } => {
            assert_eq!(detected_malicious, ids(&["x", "y"]));
        }
        other => panic!("unexpected {:?}", other),
    }
}
