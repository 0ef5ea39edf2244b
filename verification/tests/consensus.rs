use result_verifier::consensus::{voters_of, ConsensusEngine, ConsensusOutcome, ResultHash};
use result_verifier::error::VerifierError;
use result_verifier::node::{create_node_id, NodeId};
use result_verifier::ordered_map::OrderedMap;

fn node_id(s: &str) -> NodeId {
    create_node_id(s)
}

fn vote(hash: &str) -> ResultHash {
    ResultHash { hash: hash.to_string(), data: vec![] }
}

#[test]
fn test_min_votes_required() {
    assert_eq!(ConsensusEngine::min_votes_required(3), 3); // 2/3 of 3 = 2, need 3
    assert_eq!(ConsensusEngine::min_votes_required(4), 3); // 2/3 of 4 = 2.67, need 3
    assert_eq!(ConsensusEngine::min_votes_required(5), 4); // 2/3 of 5 = 3.33, need 4
    assert_eq!(ConsensusEngine::min_votes_required(6), 5); // 2/3 of 6 = 4, need 5
    assert_eq!(ConsensusEngine::min_votes_required(9), 7); // 2/3 of 9 = 6, need 7
}

#[test]
fn test_consensus_with_majority() {
    let mut results = OrderedMap::new();
    let mut result_data = OrderedMap::new();

    let correct_hash = "hash1".to_string();
    let correct_data = b"correct_result".to_vec();
    result_data.insert(correct_hash.clone(), correct_data.clone());

    // 5 providers, need 4 for consensus
    // 4 providers agree
    for i in 0..4 {
        let provider_id = node_id(&format!("provider_{}", i));
        results.insert(
            provider_id,
            ResultHash { hash: correct_hash.clone(), data: correct_data.clone() },
        );
    }

    // 1 provider disagrees
    let wrong_hash = "hash2".to_string();
    let wrong_data = b"wrong_result".to_vec();
    result_data.insert(wrong_hash.clone(), wrong_data.clone());
    results.insert(node_id("provider_4"), ResultHash { hash: wrong_hash, data: wrong_data });

    let outcome = ConsensusEngine::reach_consensus(&results, &result_data).unwrap();
    match outcome {
        ConsensusOutcome::Consensus { result, votes, total } => {
            assert_eq!(result.hash, correct_hash);
            assert_eq!(result.data, correct_data);
            assert_eq!(votes, 4);
            assert_eq!(total, 5);
        }
        _ => panic!("Expected consensus"),
    }
}

#[test]
fn test_no_consensus() {
    let mut results = OrderedMap::new();
    let mut result_data = OrderedMap::new();

    let hash1 = "hash1".to_string();
    let hash2 = "hash2".to_string();
    let hash3 = "hash3".to_string();

    result_data.insert(hash1.clone(), b"result1".to_vec());
    result_data.insert(hash2.clone(), b"result2".to_vec());
    result_data.insert(hash3.clone(), b"result3".to_vec());

    // 3 providers, need 3 for consensus
    // But we have 3 different results (no majority)
    results.insert(
        node_id("provider_1"),
        ResultHash { hash: hash1.clone(), data: b"result1".to_vec() },
    );
    results.insert(
        node_id("provider_2"),
        ResultHash { hash: hash2.clone(), data: b"result2".to_vec() },
    );
    results.insert(
        node_id("provider_3"),
        ResultHash { hash: hash3.clone(), data: b"result3".to_vec() },
    );

    let outcome = ConsensusEngine::reach_consensus(&results, &result_data).unwrap();
    match outcome {
        ConsensusOutcome::NoConsensus { distribution } => {
            assert_eq!(distribution.len(), 3);
            assert_eq!(distribution.get(&hash1), Some(&1));
            assert_eq!(distribution.get(&hash2), Some(&1));
            assert_eq!(distribution.get(&hash3), Some(&1));
        }
        _ => panic!("Expected no consensus"),
    }
}

#[test]
fn test_identify_malicious_providers() {
    let mut results = OrderedMap::new();
    let correct_hash = "correct_hash".to_string();

    // 3 honest providers
    for i in 0..3 {
        results.insert(node_id(&format!("honest_{}", i)), vote("correct_hash"));
    }

    // 2 malicious providers
    results.insert(node_id("malicious_1"), vote("wrong_hash_1"));
    results.insert(node_id("malicious_2"), vote("wrong_hash_2"));

    let malicious = ConsensusEngine::identify_malicious_providers(&results, &correct_hash);
    assert_eq!(malicious.len(), 2);
    assert!(malicious.contains(&node_id("malicious_1")));
    assert!(malicious.contains(&node_id("malicious_2")));
}

#[test]
fn quorum_is_the_least_number_above_two_thirds() {
    assert_eq!(ConsensusEngine::min_votes_required(0), 0);
    for total in 1..200usize {
        let votes = ConsensusEngine::min_votes_required(total);
        assert!(3 * votes > 2 * total);
        assert!(3 * (votes - 1) <= 2 * total);
        assert!(ConsensusEngine::has_consensus(votes, total));
        assert!(!ConsensusEngine::has_consensus(votes - 1, total));
    }
    assert!(!ConsensusEngine::has_consensus(0, 0));
    assert_eq!(
        ConsensusEngine::min_votes_required(usize::MAX),
        usize::MAX / 3 * 2 + 1
    );
}

#[test]
fn vote_without_results_is_refused() {
    let results: OrderedMap<NodeId, ResultHash> = OrderedMap::new();
    match ConsensusEngine::reach_consensus(&results, &OrderedMap::new()) {
        Err(VerifierError::InsufficientResults { received, required }) => {
            assert_eq!((received, required), (0, 1));
        }
        other => panic!("unexpected {:?}", other),
    }
}

#[test]
fn consensus_without_data_is_an_internal_error() {
    let mut results = OrderedMap::new();
    for i in 0..3 {
        results.insert(node_id(&format!("provider_{}", i)), vote("lost"));
    }
    match ConsensusEngine::reach_consensus(&results, &OrderedMap::new()) {
        Err(error) => {
            assert_eq!(
                error.to_text(),
                "Internal error: Result data not found for hash lost"
            );
        }
        other => panic!("unexpected {:?}", other),
    }
}

#[test]
fn colluders_below_the_quorum_do_not_win() {
    let mut results = OrderedMap::new();
    for i in 0..2 {
        results.insert(node_id(&format!("honest_{}", i)), vote("right"));
    }
    for i in 0..4 {
        results.insert(node_id(&format!("colluder_{}", i)), vote("wrong"));
    }
    match ConsensusEngine::reach_consensus(&results, &OrderedMap::new()).unwrap() {
        ConsensusOutcome::NoConsensus { distribution } => {
            assert_eq!(distribution.len(), 2);
            assert_eq!(distribution.key_at(0), "right");
            assert_eq!(*distribution.value_at(0), 2);
            assert_eq!(distribution.key_at(1), "wrong");
            assert_eq!(*distribution.value_at(1), 4);
        }
        other => panic!("unexpected {:?}", other),
    }
}

#[test]
fn voters_are_split_in_two() {
    let mut results = OrderedMap::new();
    results.insert(node_id("a"), vote("x"));
    results.insert(node_id("b"), vote("y"));
    results.insert(node_id("c"), vote("x"));
    assert_eq!(voters_of(&results, "x", true), vec![node_id("a"), node_id("c")]);
    assert_eq!(voters_of(&results, "x", false), vec![node_id("b")]);
}

#[test]
fn errors_say_what_is_wrong() {
    let texts = [
        VerifierError::InsufficientResults { received: 1, required: 3 }.to_text(),
        VerifierError::NoConsensus(4).to_text(),
        VerifierError::TaskNotFound("t:b".to_string()).to_text(),
        VerifierError::DuplicateProvider("0xab".to_string()).to_text(),
        VerifierError::InvalidResult("x".to_string()).to_text(),
        VerifierError::Timeout("y".to_string()).to_text(),
        VerifierError::Internal("z".to_string()).clone().to_text(),
    ];
    assert_eq!(texts[0], "Insufficient results: got 1, need at least 3");
    assert_eq!(texts[1], "No consensus reached: 4 different results");
    assert_eq!(texts[2], "Task not found: t:b");
    assert_eq!(texts[3], "Provider already submitted result: 0xab");
    assert_eq!(texts[4], "Invalid result format: x");
    assert_eq!(texts[5], "Timeout waiting for results: y");
    assert_eq!(texts[6], "Internal error: z");
}
