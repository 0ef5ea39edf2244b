//! The requestor's side of redundant execution.
//!
//! A batch is sent to several providers. What they return is gathered and put
//! to the vote. Sending and waiting is left to the caller: this module says
//! whom to ask, and what the answers amount to.
use crate::command::{commands_from_json, commands_to_json, ExeScriptCommandResult};
#[allow(unused_imports)]
use crate::command::{commands_json, CommandView};
use crate::consensus::{voters_of, ConsensusEngine, ConsensusOutcome, ResultHash};
#[allow(unused_imports)]
use crate::consensus::{
    agreed, consensus, hashes_of, law_vote_is_counted, law_voters_are_those_that_voted,
    lemma_count_bound, outcome_view, quorum, supporters, voters, HashView, OutcomeView,
};
use crate::digest::fingerprint;
#[allow(unused_imports)]
use crate::error::ErrorView;
use crate::error::VerifierResult;
use crate::node::NodeId;
use crate::ordered_map::OrderedMap;
#[allow(unused_imports)]
use crate::ordered_map::{find, keys_distinct, lemma_upsert_lookup, lookup, upsert};
use crate::result_collector::{ProviderResult, VerificationResult};
#[allow(unused_imports)]
use crate::result_collector::{
    batch_data, batch_hash, data_by_hash, hashed, hashed_batch, last_batch, verification,
    ProviderView, Submissions, VerificationView,
};
use crate::time::{DateTime, Duration};
use crate::views::Duplicate;
#[allow(unused_imports)]
use crate::views::views;
use vstd::prelude::*;

verus! {

/// How long to wait.
#[derive(Clone, Copy, Debug, PartialEq, Eq, Structural)]
pub struct CollectorConfig {
    /// For the results of all providers.
    pub collection_timeout: Duration,
    /// For a single answer of one provider.
    pub provider_timeout: Duration,
}

impl Default for CollectorConfig {
    fn default() -> (config: Self)
        ensures
            config.collection_timeout.nanos == 300_000_000_000,
            config.provider_timeout.nanos == 60_000_000_000,
    {
        CollectorConfig {
            collection_timeout: Duration::from_secs(300),
            provider_timeout: Duration::from_secs(60),
        }
    }
}

/// An agreement with a provider.
#[derive(Debug, PartialEq, Eq)]
pub struct AgreementParty {
    /// The agreement.
    pub agreement_id: String,
    /// The provider.
    pub provider_id: NodeId,
}

/// A provider to be asked, and its activity.
#[derive(Debug, PartialEq, Eq)]
pub struct ProviderRequest {
    /// The provider.
    pub provider_id: NodeId,
    /// The activity.
    pub activity_id: String,
}

impl View for AgreementParty {
    type V = (Seq<char>, Seq<u8>);

    open spec fn view(&self) -> (Seq<char>, Seq<u8>) {
        (self.agreement_id@, self.provider_id@)
    }
}

impl View for ProviderRequest {
    type V = (Seq<u8>, Seq<char>);

    open spec fn view(&self) -> (Seq<u8>, Seq<char>) {
        (self.provider_id@, self.activity_id@)
    }
}

/// What became of asking one provider.
#[derive(Debug)]
pub enum ProviderAnswer {
    /// The provider answered, possibly without results.
    Answered { provider_id: NodeId, results: Option<Vec<ExeScriptCommandResult>> },
    /// The provider could not be asked, or did not answer.
    Unreachable,
}

/// The mathematical value of a [`ProviderAnswer`].
pub enum AnswerView {
    Answered { provider_id: Seq<u8>, results: Option<Seq<CommandView>> },
    Unreachable,
}

impl View for ProviderAnswer {
    type V = AnswerView;

    open spec fn view(&self) -> AnswerView {
        match *self {
            ProviderAnswer::Answered { provider_id, results } => AnswerView::Answered {
                provider_id: provider_id@,
                results: match results {
                    Some(commands) => Some(views(commands@)),
                    None => None,
                },
            },
            ProviderAnswer::Unreachable => AnswerView::Unreachable,
        }
    }
}

/// The providers whose activity is known, in the order of their agreements.
pub open spec fn requests(
    agreements: Seq<(Seq<char>, Seq<u8>)>,
    activity_ids: Seq<(Seq<char>, Seq<char>)>,
) -> Seq<(Seq<u8>, Seq<char>)>
    decreases agreements.len(),
{
    if agreements.len() == 0 {
        Seq::empty()
    } else {
        let before = requests(agreements.drop_last(), activity_ids);
        match lookup(activity_ids, agreements.last().0) {
            Some(activity_id) => before.push((agreements.last().1, activity_id)),
            None => before,
        }
    }
}

/// The results among the answers, in order.
pub open spec fn gathered(
    answers: Seq<AnswerView>,
    batch_id: Seq<char>,
    now: DateTime,
) -> Seq<ProviderView>
    decreases answers.len(),
{
    if answers.len() == 0 {
        Seq::empty()
    } else {
        let before = gathered(answers.drop_last(), batch_id, now);
        match answers.last() {
            AnswerView::Answered { provider_id, results: Some(results) } => before.push(
                ProviderView {
                    provider_id,
                    task_id: "task-"@ + batch_id,
                    batch_id,
                    results,
                    timestamp: now,
                },
            ),
            _ => before,
        }
    }
}

/// The last vote of each provider.
pub open spec fn last_votes(results: Seq<ProviderView>) -> Seq<(Seq<u8>, HashView)>
    decreases results.len(),
{
    if results.len() == 0 {
        Seq::empty()
    } else {
        upsert(
            last_votes(results.drop_last()),
            results.last().provider_id,
            hashed_batch(results.last().results),
        )
    }
}

/// Results by provider, one entry for each.
pub open spec fn listed(results: Seq<ProviderView>) -> Submissions {
    results.map_values(|r: ProviderView| (r.provider_id, r))
}

/// What gathered results amount to, given the votes, their outcome and the batch
/// that is read back from the data of the winner.
pub open spec fn requestor_judged(
    results: Seq<ProviderView>,
    votes: Seq<(Seq<u8>, HashView)>,
    outcome: Result<OutcomeView, ErrorView>,
    verified: Option<Seq<CommandView>>,
) -> VerificationView {
    let nothing = VerificationView::Failed {
        distribution: Seq::empty(),
        all_results: results,
        detected_malicious: Seq::empty(),
    };
    match outcome {
        Ok(OutcomeView::Consensus { result, votes: agreeing, total }) => match verified {
            Some(batch) => VerificationView::Verified {
                result: batch,
                votes: agreeing,
                total,
                honest_providers: voters(votes, result.hash, true),
                malicious_providers: voters(votes, result.hash, false),
                consensus_result_hash: result.hash,
            },
            None => nothing,
        },
        Ok(OutcomeView::NoConsensus { distribution }) => VerificationView::Failed {
            distribution,
            all_results: results,
            detected_malicious: Seq::empty(),
        },
        Err(_) => nothing,
    }
}

/// What a vote on gathered results amounts to.
pub open spec fn requestor_verdict(results: Seq<ProviderView>) -> VerificationView {
    let outcome = consensus(last_votes(results), data_by_hash(hashed(listed(results))));
    if results.len() == 0 {
        VerificationView::Pending { received: 0, required: 1 }
    } else {
        requestor_judged(
            results,
            last_votes(results),
            outcome,
            match outcome {
                Ok(OutcomeView::Consensus { result, .. }) => Some(
                    last_batch(listed(results), result.hash),
                ),
                _ => None,
            },
        )
    }
}

/// What redundant execution amounts to. Where the time ran out nothing counts.
pub open spec fn collection_outcome(
    answers: Option<Seq<AnswerView>>,
    agreements: nat,
    batch_id: Seq<char>,
    now: DateTime,
) -> VerificationView {
    match answers {
        Some(given) => requestor_verdict(gathered(given, batch_id, now)),
        None => VerificationView::Pending { received: 0, required: quorum(agreements as int) },
    }
}

proof fn lemma_data_known(results: Seq<ProviderView>, hash: Seq<char>)
    requires
        exists|i: int|
            0 <= i < results.len() && batch_hash((#[trigger] results[i]).results) == hash,
    ensures
        lookup(data_by_hash(hashed(listed(results))), hash) == Some(
            batch_data(last_batch(listed(results), hash)),
        ),
        exists|i: int|
            0 <= i < results.len() && (#[trigger] results[i]).results == last_batch(
                listed(results),
                hash,
            ),
        keys_distinct(data_by_hash(hashed(listed(results)))),
    decreases results.len(),
{
    let front = results.drop_last();
    assert(hashed(listed(results)).drop_last() =~= hashed(listed(front)));
    assert(listed(results).drop_last() =~= listed(front));
    lemma_data_distinct(front);
    let last = hashed_batch(results.last().results);
    lemma_upsert_lookup(data_by_hash(hashed(listed(front))), last.hash, last.data, hash);
    if last.hash == hash {
        assert(results[results.len() - 1].results == last_batch(listed(results), hash));
    } else {
        let i = choose|i: int|
            0 <= i < results.len() && batch_hash((#[trigger] results[i]).results) == hash;
        assert(front[i] == results[i]);
        lemma_data_known(front, hash);
        let j = choose|j: int|
            0 <= j < front.len() && (#[trigger] front[j]).results == last_batch(
                listed(front),
                hash,
            );
        assert(results[j].results == last_batch(listed(results), hash));
    }
}

proof fn lemma_data_distinct(results: Seq<ProviderView>)
    ensures
        keys_distinct(data_by_hash(hashed(listed(results)))),
    decreases results.len(),
{
    if results.len() > 0 {
        let front = results.drop_last();
        assert(hashed(listed(results)).drop_last() =~= hashed(listed(front)));
        lemma_data_distinct(front);
        let last = hashed_batch(results.last().results);
        lemma_upsert_lookup(data_by_hash(hashed(listed(front))), last.hash, last.data, last.hash);
    }
}

/// Every vote is that of some result.
proof fn lemma_vote_is_a_result(results: Seq<ProviderView>, j: int)
    requires
        0 <= j < last_votes(results).len(),
    ensures
        exists|i: int|
            0 <= i < results.len() && hashed_batch((#[trigger] results[i]).results) == last_votes(
                results,
            )[j].1,
    decreases results.len(),
{
    let front = results.drop_last();
    let before = last_votes(front);
    let now = last_votes(results);
    let last = results.len() - 1;
    if now[j].1 == hashed_batch(results[last].results) {
    } else {
        assert(now[j] == before[j]);
        lemma_vote_is_a_result(front, j);
        let i = choose|i: int|
            0 <= i < front.len() && hashed_batch((#[trigger] front[i]).results) == before[j].1;
        assert(results[i] == front[i]);
    }
}

proof fn lemma_votes_not_empty(results: Seq<ProviderView>)
    requires
        results.len() > 0,
    ensures
        last_votes(results).len() > 0,
    decreases results.len(),
{
}

/// What a vote on gathered results says, in full.
proof fn lemma_requestor_vote(results: Seq<ProviderView>)
    requires
        results.len() > 0,
    ensures
        consensus(last_votes(results), data_by_hash(hashed(listed(results)))) is Ok,
        consensus(last_votes(results), data_by_hash(hashed(listed(results)))) matches Ok(
            OutcomeView::Consensus { result, .. },
        ) ==> {
            &&& result.data == batch_data(last_batch(listed(results), result.hash))
            &&& exists|i: int|
                0 <= i < results.len() && (#[trigger] results[i]).results == last_batch(
                    listed(results),
                    result.hash,
                )
        },
{
    let votes = last_votes(results);
    let hashes = hashes_of(votes);
    lemma_votes_not_empty(results);
    if exists|hash: Seq<char>| agreed(hashes, hash) {
        let hash = choose|hash: Seq<char>| agreed(hashes, hash);
        lemma_count_bound(hashes, hash);
        let j = choose|j: int| 0 <= j < hashes.len() && hashes[j] == hash;
        lemma_vote_is_a_result(results, j);
        let i = choose|i: int|
            0 <= i < results.len() && hashed_batch((#[trigger] results[i]).results) == votes[j].1;
        assert(batch_hash(results[i].results) == hash);
        lemma_data_known(results, hash);
    }
}

proof fn lemma_votes_of_distinct(results: Seq<ProviderView>)
    requires
        keys_distinct(listed(results)),
    ensures
        last_votes(results) == hashed(listed(results)),
    decreases results.len(),
{
    if results.len() > 0 {
        let front = results.drop_last();
        let last = results.last();
        assert(listed(front) =~= listed(results).drop_last());
        assert(keys_distinct(listed(front))) by {
            assert forall|i: int, j: int| 0 <= i < j < front.len() implies #[trigger] listed(
                front,
            )[i].0 != #[trigger] listed(front)[j].0 by {
                assert(listed(results)[i].0 != listed(results)[j].0);
            }
        }
        lemma_votes_of_distinct(front);
        let before = hashed(listed(front));
        if find(before, last.provider_id) is Some {
            let i = find(before, last.provider_id).unwrap();
            assert(before[i].0 == listed(results)[i].0);
            assert(listed(results)[i].0 != listed(results)[results.len() - 1].0);
        }
        assert(hashed(listed(results)) =~= before.push(
            (last.provider_id, hashed_batch(last.results)),
        ));
    } else {
        assert(hashed(listed(results)) =~= last_votes(results));
    }
}

/// Where every provider answered once, the requestor verifies exactly what the
/// verifier does.
pub proof fn law_requestor_agrees_with_verifier(results: Seq<ProviderView>, expected: int)
    requires
        results.len() > 0,
        keys_distinct(listed(results)),
    ensures
        requestor_verdict(results) is Verified <==> verification(
            listed(results),
            expected,
        ) is Verified,
        requestor_verdict(results) is Verified ==> requestor_verdict(results) == verification(
            listed(results),
            expected,
        ),
{
    lemma_votes_of_distinct(results);
}

/// Results that the requestor verifies have more than two thirds of the votes,
/// and each provider has one vote.
pub proof fn law_requestor_needs_a_quorum(results: Seq<ProviderView>)
    requires
        requestor_verdict(results) is Verified,
    ensures
        3 * requestor_verdict(results)->votes > 2 * requestor_verdict(results)->total,
        requestor_verdict(results)->total == last_votes(results).len(),
        keys_distinct(last_votes(results)),
{
    lemma_requestor_vote(results);
    lemma_votes_keys(results);
}

proof fn lemma_votes_keys(results: Seq<ProviderView>)
    ensures
        keys_distinct(last_votes(results)),
    decreases results.len(),
{
    if results.len() > 0 {
        let front = results.drop_last();
        lemma_votes_keys(front);
        lemma_upsert_lookup(
            last_votes(front),
            results.last().provider_id,
            hashed_batch(results.last().results),
            results.last().provider_id,
        );
    }
}

/// Gathers and verifies the results of redundant execution.
#[derive(Clone, Copy, Debug)]
pub struct ResultCollector {
    /// How long to wait.
    pub config: CollectorConfig,
}

impl ResultCollector {
    /// A collector that waits five minutes for all and one minute for each.
    pub fn new() -> (collector: Self)
        ensures
            collector.config.collection_timeout.nanos == 300_000_000_000,
            collector.config.provider_timeout.nanos == 60_000_000_000,
    {
        ResultCollector { config: CollectorConfig::default() }
    }

    /// A collector that waits as told.
    pub fn with_config(config: CollectorConfig) -> (collector: Self)
        ensures
            collector.config == config,
    {
        ResultCollector { config }
    }

    /// Whom to ask: the providers whose activity is known.
    pub fn plan_requests(
        &self,
        agreements: &[AgreementParty],
        activity_ids: &OrderedMap<String, String>,
    ) -> (plan: Vec<ProviderRequest>)
        ensures
            views(plan@) == requests(views(agreements@), activity_ids@),
    {
        let ghost all = views(agreements@);
        let mut plan: Vec<ProviderRequest> = Vec::new();
        assert(views(plan@) =~= Seq::<(Seq<u8>, Seq<char>)>::empty());
        let mut i: usize = 0;
        while i < agreements.len()
            invariant
                i <= agreements.len(),
                all == views(agreements@),
                views(plan@) == requests(all.take(i as int), activity_ids@),
            decreases agreements.len() - i,
        {
            assert(all.take(i + 1).drop_last() =~= all.take(i as int));
            let agreement = &agreements[i];
            if let Some(activity_id) = activity_ids.get(&agreement.agreement_id) {
                let request = ProviderRequest {
                    provider_id: agreement.provider_id,
                    activity_id: activity_id.clone(),
                };
                let ghost before = views(plan@);
                let ghost added = request@;
                plan.push(request);
                assert(views(plan@) =~= before.push(added));
            }
            i += 1;
        }
        assert(all.take(i as int) =~= all);
        plan
    }

    /// What the answers amount to at the time `now`. Without answers the time
    /// ran out.
    pub fn conclude(
        &self,
        answers: Option<Vec<ProviderAnswer>>,
        agreements: usize,
        batch_id: &str,
        now: DateTime,
    ) -> (verdict: VerificationResult)
        ensures
            verdict@ == collection_outcome(
                match answers {
                    Some(given) => Some(views(given@)),
                    None => None,
                },
                agreements as nat,
                batch_id@,
                now,
            ),
    {
        match answers {
            Some(given) => {
                let results = self.gather(given, batch_id, now);
                self.verify_results(results)
            },
            None => VerificationResult::Pending {
                received: 0,
                required: ConsensusEngine::min_votes_required(agreements),
            },
        }
    }

    /// The results among the answers.
    fn gather(&self, answers: Vec<ProviderAnswer>, batch_id: &str, now: DateTime) -> (results: Vec<
        ProviderResult,
    >)
        ensures
            views(results@) == gathered(views(answers@), batch_id@, now),
    {
        let ghost all = views(answers@);
        let mut results: Vec<ProviderResult> = Vec::new();
        assert(views(results@) =~= Seq::<ProviderView>::empty());
        let mut i: usize = 0;
        while i < answers.len()
            invariant
                i <= answers.len(),
                all == views(answers@),
                views(results@) == gathered(all.take(i as int), batch_id@, now),
            decreases answers.len() - i,
        {
            assert(all.take(i + 1).drop_last() =~= all.take(i as int));
            assert(all.take(i + 1).last() == answers@[i as int]@);
            if let ProviderAnswer::Answered { provider_id, results: Some(commands) } = &answers[i] {
                let mut task_id = "task-".to_string();
                task_id.append(batch_id);
                let result = ProviderResult {
                    provider_id: *provider_id,
                    task_id,
                    batch_id: batch_id.to_string(),
                    results: crate::views::duplicate_all(commands.as_slice()),
                    timestamp: now,
                };
                let ghost before = views(results@);
                let ghost added = result@;
                results.push(result);
                assert(views(results@) =~= before.push(added));
            }
            i += 1;
        }
        assert(all.take(i as int) =~= all);
        results
    }

    /// Puts gathered results to the vote.
    pub fn verify_results(&self, provider_results: Vec<ProviderResult>) -> (verdict:
        VerificationResult)
        ensures
            verdict@ == requestor_verdict(views(provider_results@)),
    {
        let ghost all = views(provider_results@);
        if provider_results.len() == 0 {
            return VerificationResult::Pending { received: 0, required: 1 };
        }
        let (result_hashes, result_data) = hash_all(&provider_results);
        proof {
            lemma_requestor_vote(all);
        }
        let outcome = ConsensusEngine::reach_consensus(&result_hashes, &result_data);
        let verified = match &outcome {
            Ok(ConsensusOutcome::Consensus { result, .. }) => {
                let ghost batch = last_batch(listed(all), result.hash@);
                assert(commands_json(batch) == Some(result.data@)) by {
                    let i = choose|i: int|
                        0 <= i < all.len() && (#[trigger] all[i]).results == batch;
                    assert(commands_json(all[i].results) == Some(batch_data(all[i].results)));
                }
                commands_from_json(result.data.as_slice())
            },
            _ => None,
        };
        self.judge_results(provider_results, &result_hashes, outcome, verified)
    }

    /// What gathered results amount to, given the votes, their outcome and the
    /// batch that is read back from the data of the winner.
    pub fn judge_results(
        &self,
        provider_results: Vec<ProviderResult>,
        result_hashes: &OrderedMap<NodeId, ResultHash>,
        outcome: VerifierResult<ConsensusOutcome>,
        verified: Option<Vec<ExeScriptCommandResult>>,
    ) -> (verdict: VerificationResult)
        ensures
            verdict@ == requestor_judged(
                views(provider_results@),
                result_hashes@,
                outcome_view(outcome),
                match verified {
                    Some(batch) => Some(views(batch@)),
                    None => None,
                },
            ),
    {
        let detected_malicious: Vec<NodeId> = Vec::new();
        assert(views(detected_malicious@) =~= Seq::<Seq<u8>>::empty());
        match (outcome, verified) {
            (Ok(ConsensusOutcome::Consensus { result, votes, total }), Some(batch)) => {
                let honest_providers = voters_of(result_hashes, result.hash.as_str(), true);
                let malicious_providers = ConsensusEngine::identify_malicious_providers(
                    result_hashes,
                    result.hash.as_str(),
                );
                VerificationResult::Verified {
                    result: batch,
                    votes,
                    total,
                    honest_providers,
                    malicious_providers,
                    consensus_result_hash: result.hash,
                }
            },
            (Ok(ConsensusOutcome::NoConsensus { distribution }), _) => VerificationResult::Failed {
                distribution,
                all_results: provider_results,
                detected_malicious,
            },
            _ => VerificationResult::Failed {
                distribution: OrderedMap::new(),
                all_results: provider_results,
                detected_malicious,
            },
        }
    }
}

impl Default for ResultCollector {
    fn default() -> (collector: Self)
        ensures
            collector.config.collection_timeout.nanos == 300_000_000_000,
            collector.config.provider_timeout.nanos == 60_000_000_000,
    {
        ResultCollector::new()
    }
}

/// The last vote of each provider, and the data of each fingerprint.
fn hash_all(results: &Vec<ProviderResult>) -> (votes: (
    OrderedMap<NodeId, ResultHash>,
    OrderedMap<String, Vec<u8>>,
))
    ensures
        votes.0@ == last_votes(views(results@)),
        votes.1@ == data_by_hash(hashed(listed(views(results@)))),
        forall|i: int|
            0 <= i < results@.len() ==> commands_json(
                (#[trigger] views(results@)[i]).results,
            ) == Some(batch_data(views(results@)[i].results)),
{
    let ghost all = views(results@);
    let mut hashes: OrderedMap<NodeId, ResultHash> = OrderedMap::new();
    let mut data: OrderedMap<String, Vec<u8>> = OrderedMap::new();
    assert(hashed(listed(all.take(0))) =~= Seq::empty());
    let mut i: usize = 0;
    while i < results.len()
        invariant
            i <= results.len(),
            all == views(results@),
            hashes@ == last_votes(all.take(i as int)),
            data@ == data_by_hash(hashed(listed(all.take(i as int)))),
            forall|j: int|
                0 <= j < i ==> commands_json((#[trigger] all[j]).results) == Some(
                    batch_data(all[j].results),
                ),
        decreases results.len() - i,
    {
        let ghost now = all.take(i as int);
        let ghost next = all.take(i + 1);
        assert(next.drop_last() =~= now);
        assert(hashed(listed(next)).drop_last() =~= hashed(listed(now)));
        let bytes = commands_to_json(results[i].results.as_slice());
        let hash = fingerprint(bytes.as_slice());
        let copy = bytes.duplicate();
        assert(all[i as int].results == views(results@[i as int].results@));
        hashes.insert(results[i].provider_id, ResultHash { hash: hash.clone(), data: copy });
        data.insert(hash, bytes);
        i += 1;
    }
    assert(all.take(i as int) =~= all);
    (hashes, data)
}

// ---------------------------------------------------------------- laws

/// The request to the provider of an agreement whose activity is known.
pub open spec fn request_to(activity_ids: Seq<(Seq<char>, Seq<char>)>) -> spec_fn(
    (Seq<char>, Seq<u8>),
) -> Option<(Seq<u8>, Seq<char>)> {
    |agreement: (Seq<char>, Seq<u8>)|
        match lookup(activity_ids, agreement.0) {
            Some(activity) => Some((agreement.1, activity)),
            None => None,
        }
}

/// Every provider whose activity is known is asked once for each agreement, in the
/// order of the agreements, and nobody else.
pub proof fn law_known_activities_are_asked(
    agreements: Seq<(Seq<char>, Seq<u8>)>,
    activity_ids: Seq<(Seq<char>, Seq<char>)>,
)
    ensures
        requests(agreements, activity_ids) == agreements.filter_map(request_to(activity_ids)),
    decreases agreements.len(),
{
    let f = request_to(activity_ids);
    if agreements.len() == 0 {
        assert(requests(agreements, activity_ids) =~= agreements.filter_map(f));
    } else {
        law_known_activities_are_asked(agreements.drop_last(), activity_ids);
        let before = requests(agreements.drop_last(), activity_ids);
        if let Some(request) = f(agreements.last()) {
            assert(before.push(request) =~= before + seq![request]);
        }
    }
}

/// What an answer contributes, if it holds results.
pub open spec fn contribution(batch_id: Seq<char>, now: DateTime) -> spec_fn(AnswerView) -> Option<
    ProviderView,
> {
    |answer: AnswerView|
        match answer {
            AnswerView::Answered { provider_id, results: Some(results) } => Some(
                ProviderView {
                    provider_id,
                    task_id: "task-"@ + batch_id,
                    batch_id,
                    results,
                    timestamp: now,
                },
            ),
            _ => None,
        }
}

proof fn lemma_gathered(answers: Seq<AnswerView>, batch_id: Seq<char>, now: DateTime)
    ensures
        gathered(answers, batch_id, now) == answers.filter_map(contribution(batch_id, now)),
    decreases answers.len(),
{
    let f = contribution(batch_id, now);
    if answers.len() == 0 {
        assert(gathered(answers, batch_id, now) =~= answers.filter_map(f));
    } else {
        lemma_gathered(answers.drop_last(), batch_id, now);
        let before = gathered(answers.drop_last(), batch_id, now);
        if let Some(result) = f(answers.last()) {
            assert(before.push(result) =~= before + seq![result]);
        }
    }
}

/// What was gathered in time is put to the vote: the results among the answers, in
/// order. Where the time ran out nothing counts, and a quorum of the agreements is
/// still missing.
pub proof fn law_answers_are_put_to_the_vote(
    answers: Seq<AnswerView>,
    agreements: nat,
    batch_id: Seq<char>,
    now: DateTime,
)
    ensures
        collection_outcome(Some(answers), agreements, batch_id, now) == requestor_verdict(
            answers.filter_map(contribution(batch_id, now)),
        ),
        collection_outcome(None, agreements, batch_id, now) == (VerificationView::Pending {
            received: 0,
            required: quorum(agreements as int),
        }),
        requestor_verdict(Seq::empty()) == (VerificationView::Pending { received: 0, required: 1 }),
{
    lemma_gathered(answers, batch_id, now);
}

/// Each provider has one vote: that of the last result it returned.
pub proof fn law_last_answer_counts(results: Seq<ProviderView>, i: int, other: Seq<u8>)
    requires
        0 <= i < results.len(),
        forall|j: int|
            i < j < results.len() ==> (#[trigger] results[j]).provider_id
                != results[i].provider_id,
        forall|j: int| 0 <= j < results.len() ==> (#[trigger] results[j]).provider_id != other,
    ensures
        keys_distinct(last_votes(results)),
        lookup(last_votes(results), results[i].provider_id) == Some(
            HashView {
                hash: batch_hash(results[i].results),
                data: batch_data(results[i].results),
            },
        ),
        lookup(last_votes(results), other) is None,
    decreases results.len(),
{
    let front = results.drop_last();
    let last = results.last();
    lemma_votes_keys(results);
    lemma_votes_keys(front);
    let own = results[i].provider_id;
    lemma_upsert_lookup(last_votes(front), last.provider_id, hashed_batch(last.results), own);
    lemma_upsert_lookup(last_votes(front), last.provider_id, hashed_batch(last.results), other);
    lemma_no_vote(results, other);
    if i < results.len() - 1 {
        assert(results[results.len() - 1].provider_id != own);
        assert forall|j: int| i < j < front.len() implies (#[trigger] front[j]).provider_id
            != front[i].provider_id by {
            assert(front[j] == results[j]);
        }
        assert forall|j: int| 0 <= j < front.len() implies (#[trigger] front[j]).provider_id
            != other by {
            assert(front[j] == results[j]);
        }
        law_last_answer_counts(front, i, other);
    }
}

proof fn lemma_no_vote(results: Seq<ProviderView>, other: Seq<u8>)
    requires
        forall|j: int| 0 <= j < results.len() ==> (#[trigger] results[j]).provider_id != other,
    ensures
        lookup(last_votes(results), other) is None,
    decreases results.len(),
{
    if results.len() > 0 {
        let front = results.drop_last();
        assert forall|j: int| 0 <= j < front.len() implies (#[trigger] front[j]).provider_id
            != other by {
            assert(front[j] == results[j]);
        }
        lemma_no_vote(front, other);
        lemma_votes_keys(front);
        assert(results[results.len() - 1].provider_id != other);
        lemma_upsert_lookup(
            last_votes(front),
            results.last().provider_id,
            hashed_batch(results.last().results),
            other,
        );
    }
}

proof fn lemma_last_listed(results: Seq<ProviderView>, last: int)
    requires
        0 <= last < results.len(),
        forall|j: int|
            last < j < results.len() ==> batch_hash((#[trigger] results[j]).results)
                != batch_hash(results[last].results),
    ensures
        last_batch(listed(results), batch_hash(results[last].results)) == results[last].results,
    decreases results.len(),
{
    let front = results.drop_last();
    assert(listed(results).drop_last() =~= listed(front));
    if last < results.len() - 1 {
        assert(batch_hash(results[results.len() - 1].results) != batch_hash(
            results[last].results,
        ));
        assert forall|j: int| last < j < front.len() implies batch_hash(
            (#[trigger] front[j]).results,
        ) != batch_hash(front[last].results) by {
            assert(front[j] == results[j]);
        }
        lemma_last_listed(front, last);
    }
}

/// A result whose fingerprint has more than two thirds of the votes is verified;
/// of several results with this fingerprint the last is given. The verdict names
/// who voted for it and who did not.
pub proof fn law_requestor_verifies_what_is_supported(results: Seq<ProviderView>, last: int)
    requires
        results.len() <= usize::MAX,
        last_votes(results).len() <= usize::MAX,
        0 <= last < results.len(),
        forall|j: int|
            last < j < results.len() ==> batch_hash((#[trigger] results[j]).results)
                != batch_hash(results[last].results),
        3 * supporters(last_votes(results), batch_hash(results[last].results)).len() > 2
            * last_votes(results).len(),
    ensures
        ({
            let hash = batch_hash(results[last].results);
            let votes = last_votes(results);
            requestor_verdict(results) == VerificationView::Verified {
                result: results[last].results,
                votes: supporters(votes, hash).len() as int,
                total: votes.len() as int,
                honest_providers: votes.filter(
                    |e: (Seq<u8>, HashView)| e.1.hash == hash,
                ).map_values(|e: (Seq<u8>, HashView)| e.0),
                malicious_providers: votes.filter(
                    |e: (Seq<u8>, HashView)| e.1.hash != hash,
                ).map_values(|e: (Seq<u8>, HashView)| e.0),
                consensus_result_hash: hash,
            }
        }),
{
    let hash = batch_hash(results[last].results);
    let votes = last_votes(results);
    let data = data_by_hash(hashed(listed(results)));
    lemma_votes_not_empty(results);
    law_vote_is_counted(votes, data, hash);
    lemma_data_known(results, hash);
    lemma_last_listed(results, last);
    law_voters_are_those_that_voted(votes, hash);
}

/// Where no fingerprint has more than two thirds of the votes the verdict is a
/// failure that tells the votes and all results and names nobody.
pub proof fn law_requestor_names_nobody_without_consensus(
    results: Seq<ProviderView>,
    hash: Seq<char>,
)
    requires
        0 < results.len(),
        last_votes(results).len() <= usize::MAX,
        forall|h: Seq<char>|
            3 * (#[trigger] supporters(last_votes(results), h)).len() <= 2 * last_votes(
                results,
            ).len(),
    ensures
        match requestor_verdict(results) {
            VerificationView::Failed { distribution, all_results, detected_malicious } => {
                let n = supporters(last_votes(results), hash).len();
                &&& keys_distinct(distribution)
                &&& lookup(distribution, hash) == if n == 0 {
                    None
                } else {
                    Some(n as usize)
                }
                &&& all_results == results
                &&& detected_malicious.len() == 0
            },
            _ => false,
        },
{
    let votes = last_votes(results);
    lemma_votes_not_empty(results);
    law_vote_is_counted(votes, data_by_hash(hashed(listed(results))), hash);
}

/// Given the votes and their outcome, the verdict follows the outcome: the winner
/// that could be read back, or a failure that keeps all results and names nobody.
pub proof fn law_requestor_follows_the_outcome(
    results: Seq<ProviderView>,
    votes: Seq<(Seq<u8>, HashView)>,
    outcome: Result<OutcomeView, ErrorView>,
    verified: Option<Seq<CommandView>>,
)
    ensures
        ({
            let verdict = requestor_judged(results, votes, outcome, verified);
            let empty = VerificationView::Failed {
                distribution: Seq::empty(),
                all_results: results,
                detected_malicious: Seq::empty(),
            };
            match outcome {
                Err(_) => verdict == empty,
                Ok(OutcomeView::NoConsensus { distribution }) => verdict
                    == VerificationView::Failed {
                    distribution,
                    all_results: results,
                    detected_malicious: Seq::empty(),
                },
                Ok(OutcomeView::Consensus { result, votes: agreeing, total }) => match verified {
                    None => verdict == empty,
                    Some(batch) => verdict == VerificationView::Verified {
                        result: batch,
                        votes: agreeing,
                        total,
                        honest_providers: votes.filter(
                            |e: (Seq<u8>, HashView)| e.1.hash == result.hash,
                        ).map_values(|e: (Seq<u8>, HashView)| e.0),
                        malicious_providers: votes.filter(
                            |e: (Seq<u8>, HashView)| e.1.hash != result.hash,
                        ).map_values(|e: (Seq<u8>, HashView)| e.0),
                        consensus_result_hash: result.hash,
                    },
                },
            }
        }),
{
    if let Ok(OutcomeView::Consensus { result, .. }) = outcome {
        law_voters_are_those_that_voted(votes, result.hash);
    }
}

} // verus!
