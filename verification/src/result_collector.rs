//! Collection of the results of the providers of one task, and their
//! verification.
use crate::command::{commands_from_json, commands_to_json, ExeScriptCommandResult};
#[allow(unused_imports)]
use crate::command::{commands_json, CommandView};
use crate::consensus::{most_votes, voters_of, ConsensusEngine, ConsensusOutcome, ResultHash};
#[allow(unused_imports)]
use crate::consensus::{
    agreed, consensus, count, hashes_of, is_leader, law_honest_majority_wins, law_vote_is_counted,
    law_voters_are_partitioned, law_voters_are_those_that_voted, lemma_count_bound,
    lemma_disjoint_counts, lemma_majority_leads, lemma_several_have_votes, outcome_view, quorum,
    supporters, tally, voters, HashView, OutcomeView,
};
use crate::digest::fingerprint;
#[allow(unused_imports)]
use crate::digest::fingerprint_text;
use crate::error::{VerifierError, VerifierResult};
#[allow(unused_imports)]
use crate::error::ErrorView;
use crate::fixed::Quantity;
use crate::node::NodeId;
#[allow(unused_imports)]
use crate::node::node_text;
use crate::offense::{OffenseContext, OffenseType};
#[allow(unused_imports)]
use crate::offense::{ContextView, OffenseView};
use crate::ordered_map::{MapKey, OrderedMap};
#[allow(unused_imports)]
use crate::ordered_map::{find, keys_distinct, lemma_upsert_lookup, lookup, upsert};
use crate::result_comparator::ResultComparator;
#[allow(unused_imports)]
use crate::result_comparator::{
    batches, is_tampered, law_majority_is_not_reported, lemma_positions, lemma_positions_once,
    tampered,
};
use crate::result_validator::ResultValidator;
#[allow(unused_imports)]
use crate::result_validator::format_check;
use crate::time::{utc_now, DateTime, Duration};
#[allow(unused_imports)]
use crate::time::elapsed_nanos;
use crate::views::{duplicate_all, Duplicate};
#[allow(unused_imports)]
use crate::views::views;
use vstd::prelude::*;

verus! {

/// What a provider submits.
#[derive(Debug, PartialEq, Eq)]
pub struct ProviderResult {
    /// The provider.
    pub provider_id: NodeId,
    /// The task.
    pub task_id: String,
    /// The batch.
    pub batch_id: String,
    /// The results of the commands.
    pub results: Vec<ExeScriptCommandResult>,
    /// When it was submitted.
    pub timestamp: DateTime,
}

/// The mathematical value of a [`ProviderResult`].
pub struct ProviderView {
    pub provider_id: Seq<u8>,
    pub task_id: Seq<char>,
    pub batch_id: Seq<char>,
    pub results: Seq<CommandView>,
    pub timestamp: DateTime,
}

impl View for ProviderResult {
    type V = ProviderView;

    open spec fn view(&self) -> ProviderView {
        ProviderView {
            provider_id: self.provider_id@,
            task_id: self.task_id@,
            batch_id: self.batch_id@,
            results: views(self.results@),
            timestamp: self.timestamp,
        }
    }
}

impl Clone for ProviderResult {
    fn clone(&self) -> (copy: Self)
        ensures
            copy@ == self@,
    {
        ProviderResult {
            provider_id: self.provider_id,
            task_id: self.task_id.clone(),
            batch_id: self.batch_id.clone(),
            results: duplicate_all(self.results.as_slice()),
            timestamp: self.timestamp,
        }
    }
}

impl Duplicate for ProviderResult {
    fn duplicate(&self) -> (copy: Self) {
        self.clone()
    }
}

/// The verdict on a task.
#[derive(Debug, PartialEq, Eq)]
pub enum VerificationResult {
    /// More than two thirds of the providers agree.
    Verified {
        /// The result they agree on.
        result: Vec<ExeScriptCommandResult>,
        /// The number of providers that agree.
        votes: usize,
        /// The number of providers.
        total: usize,
        /// The providers that agree.
        honest_providers: Vec<NodeId>,
        /// The providers that do not.
        malicious_providers: Vec<NodeId>,
        /// The fingerprint of the result.
        consensus_result_hash: String,
    },
    /// No result has enough votes.
    Failed {
        /// The votes for each result.
        distribution: OrderedMap<String, usize>,
        /// What the providers submitted.
        all_results: Vec<ProviderResult>,
        /// The providers that stand out nevertheless.
        detected_malicious: Vec<NodeId>,
    },
    /// Results are missing.
    Pending {
        /// The number of results so far.
        received: usize,
        /// The number that is needed.
        required: usize,
    },
}

/// The mathematical value of a [`VerificationResult`].
pub enum VerificationView {
    Verified {
        result: Seq<CommandView>,
        votes: int,
        total: int,
        honest_providers: Seq<Seq<u8>>,
        malicious_providers: Seq<Seq<u8>>,
        consensus_result_hash: Seq<char>,
    },
    Failed {
        distribution: Seq<(Seq<char>, usize)>,
        all_results: Seq<ProviderView>,
        detected_malicious: Seq<Seq<u8>>,
    },
    Pending { received: int, required: int },
}

impl View for VerificationResult {
    type V = VerificationView;

    open spec fn view(&self) -> VerificationView {
        match *self {
            VerificationResult::Verified {
                result,
                votes,
                total,
                honest_providers,
                malicious_providers,
                consensus_result_hash,
            } => VerificationView::Verified {
                result: views(result@),
                votes: votes as int,
                total: total as int,
                honest_providers: views(honest_providers@),
                malicious_providers: views(malicious_providers@),
                consensus_result_hash: consensus_result_hash@,
            },
            VerificationResult::Failed { distribution, all_results, detected_malicious } => {
                VerificationView::Failed {
                    distribution: distribution@,
                    all_results: views(all_results@),
                    detected_malicious: views(detected_malicious@),
                }
            },
            VerificationResult::Pending { received, required } => VerificationView::Pending {
                received: received as int,
                required: required as int,
            },
        }
    }
}

impl Clone for VerificationResult {
    fn clone(&self) -> (copy: Self)
        ensures
            copy@ == self@,
    {
        match self {
            VerificationResult::Verified {
                result,
                votes,
                total,
                honest_providers,
                malicious_providers,
                consensus_result_hash,
            } => VerificationResult::Verified {
                result: duplicate_all(result.as_slice()),
                votes: *votes,
                total: *total,
                honest_providers: duplicate_all(honest_providers.as_slice()),
                malicious_providers: duplicate_all(malicious_providers.as_slice()),
                consensus_result_hash: consensus_result_hash.clone(),
            },
            VerificationResult::Failed { distribution, all_results, detected_malicious } => {
                VerificationResult::Failed {
                    distribution: distribution.clone(),
                    all_results: duplicate_all(all_results.as_slice()),
                    detected_malicious: duplicate_all(detected_malicious.as_slice()),
                }
            },
            VerificationResult::Pending { received, required } => VerificationResult::Pending {
                received: *received,
                required: *required,
            },
        }
    }
}

/// What the providers submitted, by provider.
pub type Submissions = Seq<(Seq<u8>, ProviderView)>;

/// The JSON of a batch.
pub open spec fn batch_data(batch: Seq<CommandView>) -> Seq<u8> {
    match commands_json(batch) {
        Some(data) => data,
        None => Seq::empty(),
    }
}

/// The fingerprint of a batch: that of its JSON.
pub open spec fn batch_hash(batch: Seq<CommandView>) -> Seq<char> {
    fingerprint_text(batch_data(batch))
}

/// A batch with its fingerprint.
pub open spec fn hashed_batch(batch: Seq<CommandView>) -> HashView {
    HashView { hash: batch_hash(batch), data: batch_data(batch) }
}

/// The votes of the providers.
pub open spec fn hashed(submissions: Submissions) -> Seq<(Seq<u8>, HashView)> {
    submissions.map_values(|entry: (Seq<u8>, ProviderView)| (entry.0, hashed_batch(entry.1.results)))
}

/// The data of each fingerprint.
pub open spec fn data_by_hash(votes: Seq<(Seq<u8>, HashView)>) -> Seq<(Seq<char>, Seq<u8>)>
    decreases votes.len(),
{
    if votes.len() == 0 {
        Seq::empty()
    } else {
        upsert(data_by_hash(votes.drop_last()), votes.last().1.hash, votes.last().1.data)
    }
}

/// The batch with the given fingerprint that was submitted last.
pub open spec fn last_batch(submissions: Submissions, hash: Seq<char>) -> Seq<CommandView>
    decreases submissions.len(),
{
    if submissions.len() == 0 {
        Seq::empty()
    } else if batch_hash(submissions.last().1.results) == hash {
        submissions.last().1.results
    } else {
        last_batch(submissions.drop_last(), hash)
    }
}

/// What was submitted, in order.
pub open spec fn submitted(submissions: Submissions) -> Seq<ProviderView> {
    submissions.map_values(|entry: (Seq<u8>, ProviderView)| entry.1)
}

/// The batches that were submitted, in order.
pub open spec fn submitted_batches(submissions: Submissions) -> Seq<Seq<CommandView>> {
    submissions.map_values(|entry: (Seq<u8>, ProviderView)| entry.1.results)
}

/// The providers at the given positions.
pub open spec fn providers_at(submissions: Submissions, at: Seq<usize>) -> Seq<Seq<u8>> {
    at.map_values(|i: usize| submissions[i as int].0)
}

/// A list of providers, and those whose vote differs from `majority` unless
/// they are listed.
pub open spec fn with_dissenters(
    listed: Seq<Seq<u8>>,
    votes: Seq<(Seq<u8>, HashView)>,
    majority: Seq<char>,
) -> Seq<Seq<u8>>
    decreases votes.len(),
{
    if votes.len() == 0 {
        listed
    } else {
        let before = with_dissenters(listed, votes.drop_last(), majority);
        let (provider, vote) = votes.last();
        if vote.hash != majority && !before.contains(provider) {
            before.push(provider)
        } else {
            before
        }
    }
}

/// The providers that stand out where there is no consensus: those that deviate
/// on a tenth of the commands, and those that do not support the most common
/// result.
pub open spec fn outliers(
    submissions: Submissions,
    votes: Seq<(Seq<u8>, HashView)>,
    distribution: Seq<(Seq<char>, usize)>,
) -> Seq<Seq<u8>> {
    let found = providers_at(
        submissions,
        tampered(submitted_batches(submissions), Quantity { micros: 100_000 }),
    );
    if distribution.len() > 1 {
        let leader = choose|i: int| is_leader(distribution, i);
        with_dissenters(found, votes, distribution[leader].0)
    } else {
        found
    }
}

/// The verdict on what was submitted, given the votes, their outcome and the
/// batch that is read back from the data of the winner.
pub open spec fn judged(
    submissions: Submissions,
    votes: Seq<(Seq<u8>, HashView)>,
    outcome: Result<OutcomeView, ErrorView>,
    verified: Option<Seq<CommandView>>,
) -> VerificationView {
    let nothing = VerificationView::Failed {
        distribution: Seq::empty(),
        all_results: submitted(submissions),
        detected_malicious: Seq::empty(),
    };
    match outcome {
        Ok(OutcomeView::Consensus { result, votes: agreeing, total }) => match verified {
            Some(batch) => VerificationView::Verified {
                result: batch,
                votes: agreeing,
                total,
                honest_providers: voters(votes, result.hash, true),
                malicious_providers: voters(votes, result.hash, false),
                consensus_result_hash: result.hash,
            },
            None => nothing,
        },
        Ok(OutcomeView::NoConsensus { distribution }) => VerificationView::Failed {
            distribution,
            all_results: submitted(submissions),
            detected_malicious: outliers(submissions, votes, distribution),
        },
        Err(_) => nothing,
    }
}

/// The outcome of the vote on what was submitted.
pub open spec fn vote_outcome(submissions: Submissions) -> Result<OutcomeView, ErrorView> {
    consensus(hashed(submissions), data_by_hash(hashed(submissions)))
}

/// The verdict on what was submitted.
pub open spec fn verification(submissions: Submissions, expected: int) -> VerificationView {
    let outcome = vote_outcome(submissions);
    if submissions.len() == 0 {
        VerificationView::Pending { received: 0, required: quorum(expected) }
    } else {
        judged(
            submissions,
            hashed(submissions),
            outcome,
            match outcome {
                Ok(OutcomeView::Consensus { result, .. }) => Some(
                    last_batch(submissions, result.hash),
                ),
                _ => None,
            },
        )
    }
}

/// The state of a verification. There is no verdict before all expected results
/// have arrived: otherwise colluders could agree before the others are heard.
pub open spec fn status(submissions: Submissions, expected: int) -> VerificationView {
    if submissions.len() < expected {
        VerificationView::Pending { received: submissions.len() as int, required: expected }
    } else {
        verification(submissions, expected)
    }
}

/// The providers of `accused` with the given fingerprint, but for one.
pub open spec fn colluders(
    votes: Seq<(Seq<u8>, HashView)>,
    accused: Seq<Seq<u8>>,
    hash: Seq<char>,
    except: Seq<u8>,
) -> Seq<Seq<u8>>
    decreases accused.len(),
{
    if accused.len() == 0 {
        Seq::empty()
    } else {
        let before = colluders(votes, accused.drop_last(), hash, except);
        match lookup(votes, accused.last()) {
            Some(vote) => if vote.hash == hash && accused.last() != except {
                before.push(accused.last())
            } else {
                before
            },
            None => before,
        }
    }
}

/// What a provider did: the first violation of the format, or else a wrong
/// result.
pub open spec fn offense_of(batch: Seq<CommandView>, now: DateTime) -> OffenseView {
    let found = format_check(batch, now).offenses;
    if found.len() > 0 {
        found[0]
    } else {
        OffenseView::WrongResult
    }
}

/// The circumstances of a provider's offense.
pub open spec fn offense_context(
    submissions: Submissions,
    votes: Seq<(Seq<u8>, HashView)>,
    accused: Seq<Seq<u8>>,
    provider: Seq<u8>,
    correct_hash: Seq<char>,
    now: DateTime,
) -> ContextView {
    let submission = lookup(submissions, provider).unwrap();
    let wrong_hash = lookup(votes, provider).unwrap().hash;
    ContextView {
        provider_id: provider,
        offense_time: submission.timestamp,
        wrong_result_hash: wrong_hash,
        correct_result_hash: correct_hash,
        offense_type: offense_of(submission.results, now),
        colluding_providers: colluders(votes, accused, wrong_hash, provider),
        total_providers: submissions.len() as usize,
        malicious_count: accused.len() as usize,
        resource_usage: None,
        cost_info: None,
    }
}

/// The circumstances of the offenses of the first `n` accused, as far as they
/// submitted anything that has a fingerprint.
pub open spec fn offense_contexts(
    submissions: Submissions,
    votes: Seq<(Seq<u8>, HashView)>,
    accused: Seq<Seq<u8>>,
    correct_hash: Seq<char>,
    now: DateTime,
    n: nat,
) -> Seq<ContextView>
    decreases n,
{
    if n == 0 {
        Seq::empty()
    } else {
        let before = offense_contexts(
            submissions,
            votes,
            accused,
            correct_hash,
            now,
            (n - 1) as nat,
        );
        let provider = accused[n - 1];
        if lookup(submissions, provider) is Some && lookup(votes, provider) is Some {
            before.push(
                offense_context(submissions, votes, accused, provider, correct_hash, now),
            )
        } else {
            before
        }
    }
}

/// The mathematical value of a [`ResultCollector`].
pub struct CollectorView {
    pub task_id: Seq<char>,
    pub batch_id: Seq<char>,
    pub expected_providers: int,
    pub results: Submissions,
    pub timeout: Option<Duration>,
    pub start_time: DateTime,
}

/// What is said of an identifier that is not the expected one.
pub open spec fn mismatch_text(what: Seq<char>, expected: Seq<char>, got: Seq<char>) -> Seq<char> {
    what + " ID mismatch: expected "@ + expected + ", got "@ + got
}

/// What submitting a result leads to: the new state, or the reason why it is
/// refused.
pub open spec fn submission(collector: CollectorView, result: ProviderView) -> Result<
    CollectorView,
    ErrorView,
> {
    if result.task_id != collector.task_id {
        Err(ErrorView::InvalidResult(mismatch_text("Task"@, collector.task_id, result.task_id)))
    } else if result.batch_id != collector.batch_id {
        Err(ErrorView::InvalidResult(mismatch_text("Batch"@, collector.batch_id, result.batch_id)))
    } else if lookup(collector.results, result.provider_id) is Some {
        Err(ErrorView::DuplicateProvider(node_text(result.provider_id)))
    } else {
        Ok(
            CollectorView {
                results: collector.results.push((result.provider_id, result)),
                ..collector
            },
        )
    }
}

/// Whether the time for collecting is over.
pub open spec fn timed_out(collector: CollectorView, now: DateTime) -> bool {
    match collector.timeout {
        Some(timeout) => elapsed_nanos(now, collector.start_time) > timeout.nanos,
        None => false,
    }
}

// ---------------------------------------------------------------- proofs

proof fn lemma_hashed_step(submissions: Submissions, i: int)
    requires
        keys_distinct(submissions),
        0 <= i < submissions.len(),
    ensures
        hashed(submissions.take(i + 1)) == hashed(submissions.take(i)).push(
            (submissions[i].0, hashed_batch(submissions[i].1.results)),
        ),
        find(hashed(submissions.take(i)), submissions[i].0) is None,
        data_by_hash(hashed(submissions.take(i + 1))) == upsert(
            data_by_hash(hashed(submissions.take(i))),
            batch_hash(submissions[i].1.results),
            batch_data(submissions[i].1.results),
        ),
{
    let now = hashed(submissions.take(i));
    let next = hashed(submissions.take(i + 1));
    let vote = (submissions[i].0, hashed_batch(submissions[i].1.results));
    assert(next =~= now.push(vote));
    assert(next.drop_last() =~= now);
    if find(now, submissions[i].0) is Some {
        let j = find(now, submissions[i].0).unwrap();
        assert(now[j].0 == submissions[j].0);
        assert(submissions[j].0 != submissions[i].0);
    }
}

/// A fingerprint that was voted for has the data of the batch that was submitted
/// last with it.
proof fn lemma_data_is_known(submissions: Submissions, hash: Seq<char>)
    requires
        count(hashes_of(hashed(submissions)), hash) > 0,
    ensures
        lookup(data_by_hash(hashed(submissions)), hash) == Some(
            batch_data(last_batch(submissions, hash)),
        ),
        batch_hash(last_batch(submissions, hash)) == hash,
        exists|i: int|
            0 <= i < submissions.len() && (#[trigger] submissions[i]).1.results == last_batch(
                submissions,
                hash,
            ),
    decreases submissions.len(),
{
    let votes = hashed(submissions);
    let front = submissions.drop_last();
    assert(votes.drop_last() =~= hashed(front));
    assert(hashes_of(votes).drop_last() =~= hashes_of(hashed(front)));
    lemma_data_keys_distinct(hashed(front));
    let last = votes.last().1;
    lemma_upsert_lookup(data_by_hash(hashed(front)), last.hash, last.data, hash);
    if last.hash != hash {
        lemma_data_is_known(front, hash);
        let i = choose|i: int|
            0 <= i < front.len() && (#[trigger] front[i]).1.results == last_batch(front, hash);
        assert(submissions[i].1.results == last_batch(submissions, hash));
    } else {
        assert(submissions[submissions.len() - 1].1.results == last_batch(submissions, hash));
    }
}

proof fn lemma_data_keys_distinct(votes: Seq<(Seq<u8>, HashView)>)
    ensures
        keys_distinct(data_by_hash(votes)),
    decreases votes.len(),
{
    if votes.len() > 0 {
        lemma_data_keys_distinct(votes.drop_last());
        let last = votes.last().1;
        lemma_upsert_lookup(data_by_hash(votes.drop_last()), last.hash, last.data, last.hash);
    }
}

/// What a vote on submissions says, in full.
proof fn lemma_vote(submissions: Submissions)
    requires
        submissions.len() > 0,
    ensures
        consensus(hashed(submissions), data_by_hash(hashed(submissions))) is Ok,
        consensus(hashed(submissions), data_by_hash(hashed(submissions))) matches Ok(
            OutcomeView::Consensus { result, votes, total },
        ) ==> {
            &&& agreed(hashes_of(hashed(submissions)), result.hash)
            &&& result.data == batch_data(last_batch(submissions, result.hash))
            &&& batch_hash(last_batch(submissions, result.hash)) == result.hash
            &&& votes == count(hashes_of(hashed(submissions)), result.hash)
            &&& total == submissions.len()
            &&& exists|i: int|
                0 <= i < submissions.len() && (#[trigger] submissions[i]).1.results == last_batch(
                    submissions,
                    result.hash,
                )
        },
{
    let hashes = hashes_of(hashed(submissions));
    if exists|hash: Seq<char>| agreed(hashes, hash) {
        let hash = choose|hash: Seq<char>| agreed(hashes, hash);
        lemma_count_bound(hashes, hash);
        lemma_data_is_known(submissions, hash);
    }
}

proof fn lemma_leader_unique(votes: Seq<(Seq<char>, usize)>, i: int, j: int)
    requires
        is_leader(votes, i),
        is_leader(votes, j),
    ensures
        i == j,
{
    if i < j {
        assert(votes[i].1 < votes[j].1);
        assert(votes[j].1 <= votes[i].1);
    } else if j < i {
        assert(votes[j].1 < votes[i].1);
        assert(votes[i].1 <= votes[j].1);
    }
}

/// There is no verdict before all expected results have arrived.
pub proof fn law_no_early_verdict(submissions: Submissions, expected: int)
    ensures
        submissions.len() < expected ==> status(submissions, expected) == (
        VerificationView::Pending { received: submissions.len() as int, required: expected }),
        submissions.len() >= expected && submissions.len() > 0 ==> !(status(
            submissions,
            expected,
        ) is Pending),
{
    if submissions.len() > 0 {
        lemma_vote(submissions);
    }
}

/// A verified result was submitted by a provider, more than two thirds of the
/// providers submitted something with its fingerprint, and those are the honest
/// ones. All others are named as malicious.
pub proof fn law_verified_is_backed(submissions: Submissions, expected: int)
    requires
        status(submissions, expected) is Verified,
    ensures
        ({
            let verdict = status(submissions, expected);
            let hash = verdict->consensus_result_hash;
            &&& 3 * verdict->votes > 2 * verdict->total
            &&& verdict->total == submissions.len()
            &&& verdict->total >= expected
            &&& verdict->votes == verdict->honest_providers.len()
            &&& verdict->honest_providers.len() + verdict->malicious_providers.len()
                == submissions.len()
            &&& batch_hash(verdict->result) == hash
            &&& exists|i: int|
                0 <= i < submissions.len() && (#[trigger] submissions[i]).1.results
                    == verdict->result
            &&& forall|i: int|
                0 <= i < submissions.len() ==> if batch_hash(
                    (#[trigger] submissions[i]).1.results,
                ) == hash {
                    verdict->honest_providers.contains(submissions[i].0)
                } else {
                    verdict->malicious_providers.contains(submissions[i].0)
                }
        }),
{
    lemma_vote(submissions);
    let verdict = status(submissions, expected);
    let hash = verdict->consensus_result_hash;
    let votes = hashed(submissions);
    law_voters_are_partitioned(votes, hash);
    assert forall|i: int| 0 <= i < submissions.len() implies if batch_hash(
        (#[trigger] submissions[i]).1.results,
    ) == hash {
        verdict->honest_providers.contains(submissions[i].0)
    } else {
        verdict->malicious_providers.contains(submissions[i].0)
    } by {
        assert(votes[i].0 == submissions[i].0);
    }
}

/// Where all expected results have arrived and fewer than one third of them
/// deviate from a batch, that batch is verified, unless another batch was
/// submitted with the same fingerprint.
pub proof fn law_honest_majority_is_verified(
    submissions: Submissions,
    expected: int,
    batch: Seq<CommandView>,
)
    requires
        submissions.len() >= expected,
        3 * (submissions.len() - count(submitted_batches(submissions), batch)) < submissions.len(),
    ensures
        status(submissions, expected) is Verified,
        status(submissions, expected)->consensus_result_hash == batch_hash(batch),
        (forall|i: int|
            0 <= i < submissions.len() && batch_hash((#[trigger] submissions[i]).1.results)
                == batch_hash(batch) ==> submissions[i].1.results == batch) ==> status(
            submissions,
            expected,
        )->result == batch,
{
    let votes = hashed(submissions);
    let hashes = hashes_of(votes);
    let hash = batch_hash(batch);
    lemma_same_batch_same_hash(submissions, batch);
    lemma_count_bound(submitted_batches(submissions), batch);
    lemma_data_is_known(submissions, hash);
    law_honest_majority_wins(votes, data_by_hash(votes), hash);
}

proof fn lemma_same_batch_same_hash(submissions: Submissions, batch: Seq<CommandView>)
    ensures
        count(submitted_batches(submissions), batch) <= count(
            hashes_of(hashed(submissions)),
            batch_hash(batch),
        ) <= submissions.len(),
    decreases submissions.len(),
{
    lemma_count_bound(hashes_of(hashed(submissions)), batch_hash(batch));
    if submissions.len() > 0 {
        let front = submissions.drop_last();
        lemma_same_batch_same_hash(front, batch);
        assert(submitted_batches(submissions).drop_last() =~= submitted_batches(front));
        assert(hashes_of(hashed(submissions)).drop_last() =~= hashes_of(hashed(front)));
    }
}

/// Colluders that are no more than two thirds of the providers never have their
/// result verified.
pub proof fn law_colluders_are_not_verified(
    submissions: Submissions,
    expected: int,
    hash: Seq<char>,
)
    requires
        3 * count(hashes_of(hashed(submissions)), hash) <= 2 * submissions.len(),
    ensures
        status(submissions, expected) is Verified ==> status(
            submissions,
            expected,
        )->consensus_result_hash != hash,
{
    if status(submissions, expected) is Verified {
        lemma_vote(submissions);
    }
}

proof fn lemma_dissenters(
    listed: Seq<Seq<u8>>,
    votes: Seq<(Seq<u8>, HashView)>,
    majority: Seq<char>,
    i: int,
)
    requires
        0 <= i < votes.len(),
        votes[i].1.hash != majority,
    ensures
        with_dissenters(listed, votes, majority).contains(votes[i].0),
    decreases votes.len(),
{
    let front = votes.drop_last();
    let before = with_dissenters(listed, front, majority);
    let now = with_dissenters(listed, votes, majority);
    if i < votes.len() - 1 {
        assert(front[i] == votes[i]);
        lemma_dissenters(listed, front, majority, i);
        let j = choose|j: int| 0 <= j < before.len() && before[j] == votes[i].0;
        assert(now[j] == votes[i].0);
    } else if !before.contains(votes[i].0) {
        assert(now[now.len() - 1] == votes[i].0);
    }
}

/// Where there is no consensus, every provider that does not support the most
/// common result is named.
pub proof fn law_dissenters_stand_out(submissions: Submissions, expected: int, i: int, leader: int)
    requires
        status(submissions, expected) is Failed,
        status(submissions, expected)->distribution.len() > 1,
        is_leader(status(submissions, expected)->distribution, leader),
        0 <= i < submissions.len(),
        batch_hash(submissions[i].1.results) != status(
            submissions,
            expected,
        )->distribution[leader].0,
    ensures
        status(submissions, expected)->detected_malicious.contains(submissions[i].0),
{
    let verdict = status(submissions, expected);
    lemma_vote(submissions);
    let chosen = choose|i: int| is_leader(verdict->distribution, i);
    lemma_leader_unique(verdict->distribution, leader, chosen);
    let found = providers_at(
        submissions,
        tampered(submitted_batches(submissions), Quantity { micros: 100_000 }),
    );
    lemma_dissenters(found, hashed(submissions), verdict->distribution[leader].0, i);
}

/// Exactly those are listed in the end that were listed before or whose vote
/// differs, and none of them twice.
proof fn lemma_with_dissenters(
    listed: Seq<Seq<u8>>,
    votes: Seq<(Seq<u8>, HashView)>,
    majority: Seq<char>,
    provider: Seq<u8>,
)
    requires
        listed.no_duplicates(),
    ensures
        with_dissenters(listed, votes, majority).no_duplicates(),
        with_dissenters(listed, votes, majority).contains(provider) <==> listed.contains(provider)
            || exists|i: int|
            0 <= i < votes.len() && (#[trigger] votes[i]).0 == provider && votes[i].1.hash
                != majority,
    decreases votes.len(),
{
    if votes.len() > 0 {
        let front = votes.drop_last();
        let last = votes.len() - 1;
        lemma_with_dissenters(listed, front, majority, provider);
        lemma_with_dissenters(listed, front, majority, votes.last().0);
        let earlier = with_dissenters(listed, front, majority);
        let now = with_dissenters(listed, votes, majority);
        if earlier.contains(provider) {
            let j = choose|j: int| 0 <= j < earlier.len() && earlier[j] == provider;
            assert(now[j] == provider);
            if !listed.contains(provider) {
                let i = choose|i: int|
                    0 <= i < front.len() && (#[trigger] front[i]).0 == provider && front[i].1.hash
                        != majority;
                assert(votes[i] == front[i]);
            }
        }
        if now.contains(provider) && !earlier.contains(provider) {
            let j = choose|j: int| 0 <= j < now.len() && now[j] == provider;
            if j < earlier.len() {
                assert(earlier[j] == provider);
            }
            assert(votes[last].0 == provider && votes[last].1.hash != majority);
        }
        if exists|i: int|
            0 <= i < votes.len() && (#[trigger] votes[i]).0 == provider && votes[i].1.hash
                != majority {
            let i = choose|i: int|
                0 <= i < votes.len() && (#[trigger] votes[i]).0 == provider && votes[i].1.hash
                    != majority;
            lemma_dissenters(listed, votes, majority, i);
        }
    }
}

/// As many have the fingerprint of a batch as have the batch, where nothing else
/// has that fingerprint.
proof fn lemma_told_apart(submissions: Submissions, batch: Seq<CommandView>)
    requires
        forall|i: int|
            0 <= i < submissions.len() && batch_hash((#[trigger] submissions[i]).1.results)
                == batch_hash(batch) ==> submissions[i].1.results == batch,
    ensures
        count(hashes_of(hashed(submissions)), batch_hash(batch)) == count(
            submitted_batches(submissions),
            batch,
        ),
    decreases submissions.len(),
{
    if submissions.len() > 0 {
        let front = submissions.drop_last();
        assert forall|i: int|
            0 <= i < front.len() && batch_hash((#[trigger] front[i]).1.results) == batch_hash(
                batch,
            ) implies front[i].1.results == batch by {
            assert(submissions[i] == front[i]);
        }
        lemma_told_apart(front, batch);
        assert(hashes_of(hashed(submissions)).drop_last() =~= hashes_of(hashed(front)));
        assert(submitted_batches(submissions).drop_last() =~= submitted_batches(front));
        let last = submissions[submissions.len() - 1];
        assert(hashes_of(hashed(submissions)).last() == batch_hash(last.1.results));
        assert(submitted_batches(submissions).last() == last.1.results);
    }
}

/// Where more than half of the providers submitted a batch, but not enough of
/// them for a consensus, exactly the others are named, each of them once. Left
/// out are submissions that hold more commands than the batch, and different
/// batches with one fingerprint.
pub proof fn law_dissenters_from_a_majority_are_named(
    submissions: Submissions,
    expected: int,
    batch: Seq<CommandView>,
    provider: Seq<u8>,
)
    requires
        keys_distinct(submissions),
        expected <= submissions.len() <= usize::MAX,
        2 * count(submitted_batches(submissions), batch) > submissions.len(),
        3 * count(submitted_batches(submissions), batch) <= 2 * submissions.len(),
        forall|i: int|
            0 <= i < submissions.len() ==> (#[trigger] submissions[i]).1.results.len()
                <= batch.len(),
        forall|i: int|
            0 <= i < submissions.len() && batch_hash((#[trigger] submissions[i]).1.results)
                == batch_hash(batch) ==> submissions[i].1.results == batch,
    ensures
        status(submissions, expected) is Failed,
        status(submissions, expected)->detected_malicious.no_duplicates(),
        status(submissions, expected)->detected_malicious.contains(provider) <==> exists|i: int|
            0 <= i < submissions.len() && (#[trigger] submissions[i]).0 == provider
                && submissions[i].1.results != batch,
{
    let votes = hashed(submissions);
    let hashes = hashes_of(votes);
    let hash = batch_hash(batch);
    let all = submitted_batches(submissions);
    let ratio = Quantity { micros: 100_000 };
    lemma_told_apart(submissions, batch);
    lemma_count_bound(all, batch);
    assert forall|other: Seq<char>| !agreed(hashes, other) by {
        if other != hash {
            lemma_disjoint_counts(hashes, other, hash);
        }
    }
    lemma_majority_leads(hashes, hash);
    lemma_several_have_votes(hashes, hash);
    let leader = choose|i: int| is_leader(tally(hashes), i);
    let at = tampered(all, ratio);
    let found = providers_at(submissions, at);
    let flags = Seq::new(all.len(), |p: int| is_tampered(all, p, ratio));
    lemma_positions(flags, true);
    lemma_positions_once(flags, true);
    assert(found.no_duplicates()) by {
        assert forall|i: int, j: int|
            0 <= i < found.len() && 0 <= j < found.len() && i != j implies found[i] != found[j] by {
            assert(at[i] != at[j]);
            if at[i] < at[j] {
                assert(submissions[at[i] as int].0 != submissions[at[j] as int].0);
            } else {
                assert(submissions[at[j] as int].0 != submissions[at[i] as int].0);
            }
        }
    }
    lemma_with_dissenters(found, votes, hash, provider);
    let named = status(submissions, expected)->detected_malicious;
    if found.contains(provider) {
        let j = choose|j: int| 0 <= j < found.len() && found[j] == provider;
        let p = at[j];
        assert(at.contains(p));
        assert(submissions[p as int].0 == provider);
        if submissions[p as int].1.results == batch {
            assert(all[p as int] == batch);
            assert forall|i: int| 0 <= i < all.len() implies (#[trigger] all[i]).len()
                <= all[p as int].len() by {
                assert(all[i] == submissions[i].1.results);
            }
            law_majority_is_not_reported(all, p, ratio);
        }
    }
    if exists|i: int|
        0 <= i < submissions.len() && (#[trigger] submissions[i]).0 == provider
            && submissions[i].1.results != batch {
        let i = choose|i: int|
            0 <= i < submissions.len() && (#[trigger] submissions[i]).0 == provider
                && submissions[i].1.results != batch;
        assert(votes[i].0 == provider && votes[i].1.hash != hash);
    }
    if exists|i: int|
        0 <= i < votes.len() && (#[trigger] votes[i]).0 == provider && votes[i].1.hash != hash {
        let i = choose|i: int|
            0 <= i < votes.len() && (#[trigger] votes[i]).0 == provider && votes[i].1.hash != hash;
        assert(submissions[i].0 == provider);
    }
}

/// Of two accused providers with the same fingerprint each is named as a
/// colluder of the other, and nobody colludes with oneself.
pub proof fn law_colluders_name_each_other(
    votes: Seq<(Seq<u8>, HashView)>,
    accused: Seq<Seq<u8>>,
    a: Seq<u8>,
    b: Seq<u8>,
)
    requires
        accused.contains(a),
        accused.contains(b),
        a != b,
        lookup(votes, a) is Some,
        lookup(votes, b) is Some,
        lookup(votes, a).unwrap().hash == lookup(votes, b).unwrap().hash,
    ensures
        colluders(votes, accused, lookup(votes, a).unwrap().hash, a).contains(b),
        colluders(votes, accused, lookup(votes, b).unwrap().hash, b).contains(a),
        !colluders(votes, accused, lookup(votes, a).unwrap().hash, a).contains(a),
{
    let hash = lookup(votes, a).unwrap().hash;
    lemma_colluders(votes, accused, hash, a, b);
    lemma_colluders(votes, accused, hash, b, a);
    lemma_colluders(votes, accused, hash, a, a);
}

proof fn lemma_colluders(
    votes: Seq<(Seq<u8>, HashView)>,
    accused: Seq<Seq<u8>>,
    hash: Seq<char>,
    except: Seq<u8>,
    provider: Seq<u8>,
)
    ensures
        colluders(votes, accused, hash, except).contains(provider) <==> {
            &&& accused.contains(provider)
            &&& provider != except
            &&& lookup(votes, provider) is Some
            &&& lookup(votes, provider).unwrap().hash == hash
        },
    decreases accused.len(),
{
    let now = colluders(votes, accused, hash, except);
    if accused.len() > 0 {
        let front = accused.drop_last();
        let last = accused.last();
        let before = colluders(votes, front, hash, except);
        lemma_colluders(votes, front, hash, except, provider);
        if before.contains(provider) {
            let i = choose|i: int| 0 <= i < before.len() && before[i] == provider;
            assert(now[i] == provider);
        }
        if now.contains(provider) && provider != last {
            let i = choose|i: int| 0 <= i < now.len() && now[i] == provider;
            assert(before[i] == provider);
        }
        if accused.contains(provider) && provider != last {
            let i = choose|i: int| 0 <= i < accused.len() && accused[i] == provider;
            assert(front[i] == provider);
        }
        if front.contains(provider) {
            let i = choose|i: int| 0 <= i < front.len() && front[i] == provider;
            assert(accused[i] == provider);
        }
        assert(accused[accused.len() - 1] == last);
        if now.len() > before.len() {
            assert(now[now.len() - 1] == last);
        }
    }
}

/// A provider is accepted once: the same provider is refused the second time,
/// and the first result stays.
pub proof fn law_second_submission_is_refused(
    collector: CollectorView,
    first: ProviderView,
    second: ProviderView,
)
    requires
        keys_distinct(collector.results),
        submission(collector, first) is Ok,
        second.provider_id == first.provider_id,
        second.task_id == first.task_id,
        second.batch_id == first.batch_id,
    ensures
        submission(submission(collector, first)->Ok_0, second) == Err::<CollectorView, _>(
            ErrorView::DuplicateProvider(node_text(first.provider_id)),
        ),
        lookup(submission(collector, first)->Ok_0.results, first.provider_id) == Some(first),
{
    lemma_upsert_lookup(collector.results, first.provider_id, first, first.provider_id);
}

// ---------------------------------------------------------------- collector

/// Collects the results of the providers of one task.
#[derive(Debug, PartialEq, Eq)]
pub struct ResultCollector {
    /// The task.
    task_id: String,
    /// The batch.
    batch_id: String,
    /// The number of providers that are expected to submit.
    expected_providers: usize,
    /// The results so far.
    results: OrderedMap<NodeId, ProviderResult>,
    /// How long results are collected.
    timeout: Option<Duration>,
    /// When collecting began.
    start_time: DateTime,
}

impl View for ResultCollector {
    type V = CollectorView;

    closed spec fn view(&self) -> CollectorView {
        CollectorView {
            task_id: self.task_id@,
            batch_id: self.batch_id@,
            expected_providers: self.expected_providers as int,
            results: self.results@,
            timeout: self.timeout,
            start_time: self.start_time,
        }
    }
}

fn mismatch(what: &str, expected: &String, got: &String) -> (text: String)
    ensures
        text@ == mismatch_text(what@, expected@, got@),
{
    let mut text = what.to_string();
    text.append(" ID mismatch: expected ");
    text.append(expected.as_str());
    text.append(", got ");
    text.append(got.as_str());
    text
}

fn contains_id(ids: &Vec<NodeId>, id: &NodeId) -> (found: bool)
    ensures
        found == views(ids@).contains(id@),
{
    let ghost all = views(ids@);
    let mut i: usize = 0;
    while i < ids.len()
        invariant
            i <= ids.len(),
            all == views(ids@),
            forall|j: int| 0 <= j < i ==> all[j] != id@,
        decreases ids.len() - i,
    {
        if ids[i].same_key(id) {
            assert(all[i as int] == id@);
            return true;
        }
        i += 1;
    }
    false
}

fn hash_batch(batch: &Vec<ExeScriptCommandResult>) -> (vote: ResultHash)
    ensures
        vote@ == hashed_batch(views(batch@)),
        commands_json(views(batch@)) == Some(vote@.data),
{
    let data = commands_to_json(batch.as_slice());
    let hash = fingerprint(data.as_slice());
    ResultHash { hash, data }
}

impl ResultCollector {
    /// A collector that starts at the current time.
    pub fn new(
        task_id: String,
        batch_id: String,
        expected_providers: usize,
        timeout: Option<Duration>,
    ) -> (collector: Self)
        ensures
            collector@ == (CollectorView {
                task_id: task_id@,
                batch_id: batch_id@,
                expected_providers: expected_providers as int,
                results: Seq::empty(),
                timeout,
                start_time: collector@.start_time,
            }),
            keys_distinct(collector@.results),
    {
        let now = utc_now();
        Self::new_at(task_id, batch_id, expected_providers, timeout, now)
    }

    /// A collector that starts at the time `now`.
    pub fn new_at(
        task_id: String,
        batch_id: String,
        expected_providers: usize,
        timeout: Option<Duration>,
        now: DateTime,
    ) -> (collector: Self)
        ensures
            collector@ == (CollectorView {
                task_id: task_id@,
                batch_id: batch_id@,
                expected_providers: expected_providers as int,
                results: Seq::empty(),
                timeout,
                start_time: now,
            }),
            keys_distinct(collector@.results),
    {
        ResultCollector {
            task_id,
            batch_id,
            expected_providers,
            results: OrderedMap::new(),
            timeout,
            start_time: now,
        }
    }

    /// Takes the result of a provider.
    pub fn submit_result(&mut self, result: ProviderResult) -> (outcome: VerifierResult<()>)
        ensures
            match outcome {
                Ok(_) => submission(old(self)@, result@) == Ok::<_, ErrorView>(final(self)@),
                Err(error) => submission(old(self)@, result@) == Err::<CollectorView, _>(error@)
                    && final(self)@ == old(self)@,
            },
            keys_distinct(final(self)@.results),
    {
        proof {
            use_type_invariant(&self.results);
        }
        if result.task_id != self.task_id {
            return Err(
                VerifierError::InvalidResult(mismatch("Task", &self.task_id, &result.task_id)),
            );
        }
        if result.batch_id != self.batch_id {
            return Err(
                VerifierError::InvalidResult(mismatch("Batch", &self.batch_id, &result.batch_id)),
            );
        }
        if self.results.contains_key(&result.provider_id) {
            return Err(VerifierError::DuplicateProvider(result.provider_id.to_text()));
        }
        let provider_id = result.provider_id;
        self.results.insert(provider_id, result);
        proof {
            use_type_invariant(&self.results);
        }
        Ok(())
    }

    /// Whether there are enough results for a consensus.
    pub fn has_sufficient_results(&self) -> (enough: bool)
        ensures
            enough == (self@.results.len() >= quorum(self@.expected_providers)),
            keys_distinct(self@.results),
    {
        proof {
            use_type_invariant(&self.results);
        }
        self.results.len() >= ConsensusEngine::min_votes_required(self.expected_providers)
    }

    /// Whether the time for collecting is over now.
    pub fn is_timeout(&self) -> (over: bool)
        ensures
            exists|now: DateTime| over == #[trigger] timed_out(self@, now),
    {
        let now = utc_now();
        self.is_timeout_at(now)
    }

    /// Whether the time for collecting is over at the time `now`.
    pub fn is_timeout_at(&self, now: DateTime) -> (over: bool)
        ensures
            over == timed_out(self@, now),
            keys_distinct(self@.results),
    {
        proof {
            use_type_invariant(&self.results);
        }
        match self.timeout {
            Some(timeout) => now.since(&self.start_time).nanos > timeout.nanos,
            None => false,
        }
    }

    /// The state of the verification.
    pub fn get_status(&self) -> (verdict: VerificationResult)
        ensures
            verdict@ == status(self@.results, self@.expected_providers),
            keys_distinct(self@.results),
    {
        proof {
            use_type_invariant(&self.results);
        }
        let received: usize = self.results.len();
        if received < self.expected_providers {
            return VerificationResult::Pending { received, required: self.expected_providers };
        }
        verify_internal(&self.results, self.expected_providers)
    }

    /// What was submitted.
    pub fn get_all_results(&self) -> (all: Vec<ProviderResult>)
        ensures
            views(all@) == submitted(self@.results),
            keys_distinct(self@.results),
    {
        proof {
            use_type_invariant(&self.results);
        }
        all_submitted(&self.results)
    }

    /// The number of results so far.
    pub fn result_count(&self) -> (count: usize)
        ensures
            count == self@.results.len(),
            keys_distinct(self@.results),
    {
        proof {
            use_type_invariant(&self.results);
        }
        self.results.len()
    }

    /// The circumstances of the offenses of malicious providers, at the current
    /// time.
    pub fn generate_offense_contexts(
        &self,
        malicious_providers: &[NodeId],
        correct_result_hash: &str,
    ) -> (contexts: Vec<OffenseContext>)
        ensures
            exists|now: DateTime|
                views(contexts@) == #[trigger] offense_contexts(
                    self@.results,
                    hashed(self@.results),
                    views(malicious_providers@),
                    correct_result_hash@,
                    now,
                    malicious_providers@.len(),
                ),
    {
        let now = utc_now();
        self.generate_offense_contexts_at(malicious_providers, correct_result_hash, now)
    }

    /// The circumstances of the offenses of malicious providers, at the time
    /// `now`.
    pub fn generate_offense_contexts_at(
        &self,
        malicious_providers: &[NodeId],
        correct_result_hash: &str,
        now: DateTime,
    ) -> (contexts: Vec<OffenseContext>)
        ensures
            views(contexts@) == offense_contexts(
                self@.results,
                hashed(self@.results),
                views(malicious_providers@),
                correct_result_hash@,
                now,
                malicious_providers@.len(),
            ),
    {
        let (result_hashes, _) = hash_results(&self.results);
        contexts_of_votes(
            &self.results,
            &result_hashes,
            malicious_providers,
            correct_result_hash,
            now,
        )
    }
}

/// The circumstances of the offenses of malicious providers, given the votes of
/// all providers.
pub fn contexts_of_votes(
    results: &OrderedMap<NodeId, ProviderResult>,
    result_hashes: &OrderedMap<NodeId, ResultHash>,
    malicious_providers: &[NodeId],
    correct_result_hash: &str,
    now: DateTime,
) -> (contexts: Vec<OffenseContext>)
    ensures
        views(contexts@) == offense_contexts(
            results@,
            result_hashes@,
            views(malicious_providers@),
            correct_result_hash@,
            now,
            malicious_providers@.len(),
        ),
{
    let ghost entries = results@;
    let ghost votes = result_hashes@;
    let ghost accused = views(malicious_providers@);
    let validator = ResultValidator::default();
    let mut contexts: Vec<OffenseContext> = Vec::new();
    assert(views(contexts@) =~= Seq::<ContextView>::empty());
    let mut i: usize = 0;
    while i < malicious_providers.len()
        invariant
            i <= malicious_providers.len(),
            entries == results@,
            votes == result_hashes@,
            accused == views(malicious_providers@),
            views(contexts@) == offense_contexts(
                entries,
                votes,
                accused,
                correct_result_hash@,
                now,
                i as nat,
            ),
        decreases malicious_providers.len() - i,
    {
        let provider_id = malicious_providers[i];
        assert(accused[i as int] == provider_id@);
        let found = results.get(&provider_id);
        let vote = result_hashes.get(&provider_id);
        if let (Some(submission), Some(wrong)) = (found, vote) {
            let colluding_providers = find_colluders(
                result_hashes,
                malicious_providers,
                &wrong.hash,
                &provider_id,
            );
            let validation = validator.validate_format_at(submission.results.as_slice(), now);
            let offense_type = if validation.offenses.len() > 0 {
                assert(views(validation.offenses@)[0] == validation.offenses@[0]@);
                validation.offenses[0].clone()
            } else {
                OffenseType::WrongResult
            };
            let context = OffenseContext {
                provider_id,
                offense_time: submission.timestamp,
                wrong_result_hash: wrong.hash.clone(),
                correct_result_hash: correct_result_hash.to_string(),
                offense_type,
                colluding_providers,
                total_providers: results.len(),
                malicious_count: malicious_providers.len(),
                resource_usage: None,
                cost_info: None,
            };
            let ghost before = views(contexts@);
            let ghost added = context@;
            assert(added == offense_context(
                entries,
                votes,
                accused,
                provider_id@,
                correct_result_hash@,
                now,
            ));
            contexts.push(context);
            assert(views(contexts@) =~= before.push(added));
        }
        i += 1;
    }
    contexts
}

/// The accused with the given fingerprint, but for one.
fn find_colluders(
    result_hashes: &OrderedMap<NodeId, ResultHash>,
    accused: &[NodeId],
    hash: &String,
    except: &NodeId,
) -> (ids: Vec<NodeId>)
    ensures
        views(ids@) == colluders(result_hashes@, views(accused@), hash@, except@),
{
    let ghost votes = result_hashes@;
    let ghost all = views(accused@);
    let mut ids: Vec<NodeId> = Vec::new();
    assert(views(ids@) =~= Seq::<Seq<u8>>::empty());
    let mut i: usize = 0;
    while i < accused.len()
        invariant
            i <= accused.len(),
            votes == result_hashes@,
            all == views(accused@),
            views(ids@) == colluders(votes, all.take(i as int), hash@, except@),
        decreases accused.len() - i,
    {
        assert(all.take(i + 1).drop_last() =~= all.take(i as int));
        let id = accused[i];
        assert(all.take(i + 1).last() == id@);
        if let Some(vote) = result_hashes.get(&id) {
            if vote.hash == *hash && !id.same_key(except) {
                let ghost before = views(ids@);
                ids.push(id);
                assert(views(ids@) =~= before.push(id@));
            }
        }
        i += 1;
    }
    assert(all.take(i as int) =~= all);
    ids
}

fn all_submitted(results: &OrderedMap<NodeId, ProviderResult>) -> (all: Vec<ProviderResult>)
    ensures
        views(all@) == submitted(results@),
{
    let mut all: Vec<ProviderResult> = Vec::new();
    let ghost wanted = submitted(results@);
    let mut i: usize = 0;
    while i < results.len()
        invariant
            i <= results@.len(),
            wanted == submitted(results@),
            views(all@) =~= wanted.take(i as int),
        decreases results@.len() - i,
    {
        let copy = results.value_at(i).clone();
        let ghost before = views(all@);
        let ghost added = copy@;
        all.push(copy);
        assert(views(all@) =~= before.push(added));
        i += 1;
    }
    assert(wanted.take(i as int) =~= wanted);
    all
}

/// The votes of the providers, and the data of each fingerprint.
fn hash_results(results: &OrderedMap<NodeId, ProviderResult>) -> (votes: (
    OrderedMap<NodeId, ResultHash>,
    OrderedMap<String, Vec<u8>>,
))
    ensures
        votes.0@ == hashed(results@),
        votes.1@ == data_by_hash(hashed(results@)),
        forall|i: int|
            0 <= i < results@.len() ==> commands_json((#[trigger] results@[i]).1.results) == Some(
                batch_data(results@[i].1.results),
            ),
{
    let mut hashes: OrderedMap<NodeId, ResultHash> = OrderedMap::new();
    let mut data: OrderedMap<String, Vec<u8>> = OrderedMap::new();
    proof {
        use_type_invariant(results);
        assert(hashed(results@.take(0)) =~= Seq::empty());
    }
    let mut i: usize = 0;
    while i < results.len()
        invariant
            i <= results@.len(),
            keys_distinct(results@),
            hashes@ == hashed(results@.take(i as int)),
            data@ == data_by_hash(hashed(results@.take(i as int))),
            forall|j: int|
                0 <= j < i ==> commands_json((#[trigger] results@[j]).1.results) == Some(
                    batch_data(results@[j].1.results),
                ),
        decreases results@.len() - i,
    {
        let vote = hash_batch(&results.value_at(i).results);
        proof {
            lemma_hashed_step(results@, i as int);
        }
        let hash = vote.hash.clone();
        let bytes = vote.data.duplicate();
        hashes.insert(*results.key_at(i), vote);
        data.insert(hash, bytes);
        i += 1;
    }
    assert(results@.take(i as int) =~= results@);
    (hashes, data)
}

/// The verdict on what was submitted.
fn verify_internal(results: &OrderedMap<NodeId, ProviderResult>, expected_providers: usize) -> (verdict:
    VerificationResult)
    ensures
        verdict@ == verification(results@, expected_providers as int),
{
    if results.is_empty() {
        return VerificationResult::Pending {
            received: 0,
            required: ConsensusEngine::min_votes_required(expected_providers),
        };
    }
    let (result_hashes, result_data) = hash_results(results);
    proof {
        lemma_vote(results@);
    }
    let outcome = ConsensusEngine::reach_consensus(&result_hashes, &result_data);
    let verified = match &outcome {
        Ok(ConsensusOutcome::Consensus { result, .. }) => {
            let ghost batch = last_batch(results@, result.hash@);
            assert(commands_json(batch) == Some(result.data@)) by {
                let i = choose|i: int|
                    0 <= i < results@.len() && (#[trigger] results@[i]).1.results == batch;
                assert(commands_json(results@[i].1.results) == Some(
                    batch_data(results@[i].1.results),
                ));
            }
            commands_from_json(result.data.as_slice())
        },
        _ => None,
    };
    judge(results, &result_hashes, outcome, verified)
}

/// The verdict on what was submitted, given the votes, their outcome and the
/// batch that is read back from the data of the winner.
pub fn judge(
    results: &OrderedMap<NodeId, ProviderResult>,
    result_hashes: &OrderedMap<NodeId, ResultHash>,
    outcome: VerifierResult<ConsensusOutcome>,
    verified: Option<Vec<ExeScriptCommandResult>>,
) -> (verdict: VerificationResult)
    ensures
        verdict@ == judged(
            results@,
            result_hashes@,
            outcome_view(outcome),
            match verified {
                Some(batch) => Some(views(batch@)),
                None => None,
            },
        ),
{
    match outcome {
        Ok(ConsensusOutcome::Consensus { result, votes, total }) => match verified {
            Some(batch) => {
                let honest_providers = voters_of(result_hashes, result.hash.as_str(), true);
                let malicious_providers = ConsensusEngine::identify_malicious_providers(
                    result_hashes,
                    result.hash.as_str(),
                );
                VerificationResult::Verified {
                    result: batch,
                    votes,
                    total,
                    honest_providers,
                    malicious_providers,
                    consensus_result_hash: result.hash,
                }
            },
            None => failed_without_votes(results),
        },
        Ok(ConsensusOutcome::NoConsensus { distribution }) => {
            let detected_malicious = find_outliers(results, result_hashes, &distribution);
            VerificationResult::Failed {
                distribution,
                all_results: all_submitted(results),
                detected_malicious,
            }
        },
        Err(_) => failed_without_votes(results),
    }
}

/// The verdict where there was no vote.
fn failed_without_votes(results: &OrderedMap<NodeId, ProviderResult>) -> (verdict:
    VerificationResult)
    ensures
        verdict@ == (VerificationView::Failed {
            distribution: Seq::empty(),
            all_results: submitted(results@),
            detected_malicious: Seq::empty(),
        }),
{
    let detected_malicious: Vec<NodeId> = Vec::new();
    assert(views(detected_malicious@) =~= Seq::<Seq<u8>>::empty());
    VerificationResult::Failed {
        distribution: OrderedMap::new(),
        all_results: all_submitted(results),
        detected_malicious,
    }
}

/// The providers that stand out where there is no consensus.
fn find_outliers(
    results: &OrderedMap<NodeId, ProviderResult>,
    result_hashes: &OrderedMap<NodeId, ResultHash>,
    distribution: &OrderedMap<String, usize>,
) -> (detected: Vec<NodeId>)
    ensures
        views(detected@) == outliers(results@, result_hashes@, distribution@),
{
    let mut all: Vec<Vec<ExeScriptCommandResult>> = Vec::new();
    let ghost wanted = submitted_batches(results@);
    let mut i: usize = 0;
    while i < results.len()
        invariant
            i <= results@.len(),
            wanted == submitted_batches(results@),
            batches(all@) =~= wanted.take(i as int),
        decreases results@.len() - i,
    {
        let copy = duplicate_all(results.value_at(i).results.as_slice());
        let ghost before = batches(all@);
        let ghost added = views(copy@);
        all.push(copy);
        assert(batches(all@) =~= before.push(added));
        i += 1;
    }
    assert(wanted.take(i as int) =~= wanted);
    let tampered_indices = ResultComparator::detect_partial_tampering(
        all.as_slice(),
        Quantity { micros: 100_000 },
    );
    let ghost at = tampered(wanted, Quantity { micros: 100_000 });
    let ghost found = providers_at(results@, at);
    proof {
        results.lemma_len_bound();
        lemma_positions(
            Seq::new(wanted.len(), |p: int| is_tampered(wanted, p, Quantity { micros: 100_000 })),
            true,
        );
    }
    let mut detected: Vec<NodeId> = Vec::new();
    let mut j: usize = 0;
    while j < tampered_indices.len()
        invariant
            j <= tampered_indices.len(),
            tampered_indices@ == at,
            found == providers_at(results@, at),
            forall|p: usize| #[trigger] at.contains(p) ==> p < results@.len(),
            views(detected@) =~= found.take(j as int),
        decreases tampered_indices.len() - j,
    {
        let idx: usize = tampered_indices[j];
        assert(at.contains(idx)) by {
            assert(at[j as int] == idx);
        }
        let id = *results.key_at(idx);
        let ghost before = views(detected@);
        detected.push(id);
        assert(views(detected@) =~= before.push(id@));
        j += 1;
    }
    assert(found.take(j as int) =~= found);
    if distribution.len() > 1 {
        let leader: usize = most_votes(distribution);
        let majority = distribution.key_at(leader);
        proof {
            let chosen = choose|i: int| is_leader(distribution@, i);
            lemma_leader_unique(distribution@, leader as int, chosen);
        }
        let mut k: usize = 0;
        assert(result_hashes@.take(0) =~= Seq::empty());
        while k < result_hashes.len()
            invariant
                k <= result_hashes@.len(),
                views(detected@) == with_dissenters(
                    found,
                    result_hashes@.take(k as int),
                    majority@,
                ),
            decreases result_hashes@.len() - k,
        {
            assert(result_hashes@.take(k + 1).drop_last() =~= result_hashes@.take(k as int));
            let id = *result_hashes.key_at(k);
            if result_hashes.value_at(k).hash != *majority && !contains_id(&detected, &id) {
                let ghost before = views(detected@);
                detected.push(id);
                assert(views(detected@) =~= before.push(id@));
            }
            k += 1;
        }
        assert(result_hashes@.take(k as int) =~= result_hashes@);
    }
    detected
}

// ---------------------------------------------------------------- laws

/// A result is taken exactly where it names the task and batch of the collector and
/// its provider has none yet. It is put behind the others, and nothing else about
/// the collector changes. A refusal says which identifier was wrong, or who was
/// there before.
pub proof fn law_submissions_are_checked(collector: CollectorView, result: ProviderView)
    ensures
        ({
            let outcome = submission(collector, result);
            let right_task = result.task_id == collector.task_id;
            let right_batch = result.batch_id == collector.batch_id;
            let fresh = forall|i: int|
                0 <= i < collector.results.len() ==> (#[trigger] collector.results[i]).0
                    != result.provider_id;
            &&& outcome is Ok <==> right_task && right_batch && fresh
            &&& !right_task ==> outcome == Err::<CollectorView, _>(
                ErrorView::InvalidResult(
                    "Task"@ + " ID mismatch: expected "@ + collector.task_id + ", got "@
                        + result.task_id,
                ),
            )
            &&& right_task && !right_batch ==> outcome == Err::<CollectorView, _>(
                ErrorView::InvalidResult(
                    "Batch"@ + " ID mismatch: expected "@ + collector.batch_id + ", got "@
                        + result.batch_id,
                ),
            )
            &&& right_task && right_batch && !fresh ==> outcome == Err::<CollectorView, _>(
                ErrorView::DuplicateProvider(node_text(result.provider_id)),
            )
            &&& outcome matches Ok(after) ==> {
                &&& after.results == collector.results.push((result.provider_id, result))
                &&& after.task_id == collector.task_id
                &&& after.batch_id == collector.batch_id
                &&& after.expected_providers == collector.expected_providers
                &&& after.timeout == collector.timeout
                &&& after.start_time == collector.start_time
            }
        }),
{
    let fresh = forall|i: int|
        0 <= i < collector.results.len() ==> (#[trigger] collector.results[i]).0
            != result.provider_id;
    if !fresh {
        let i = choose|i: int|
            0 <= i < collector.results.len() && (#[trigger] collector.results[i]).0
                == result.provider_id;
        assert(collector.results[i].0 == result.provider_id);
        assert(find(collector.results, result.provider_id) is Some);
    }
}

/// The time is over exactly where a limit is set and more than it has passed since
/// collecting began.
pub proof fn law_time_runs_out(collector: CollectorView, now: DateTime)
    ensures
        collector.timeout is None ==> !timed_out(collector, now),
        collector.timeout matches Some(limit) ==> (timed_out(collector, now) <==> elapsed_nanos(
            now,
            collector.start_time,
        ) > limit.nanos),
{
}

/// The providers that submitted something with the given fingerprint.
pub open spec fn backers(submissions: Submissions, hash: Seq<char>) -> Set<int> {
    Set::new(|i: int| 0 <= i < submissions.len() && batch_hash(submissions[i].1.results) == hash)
}

proof fn lemma_backers(submissions: Submissions, hash: Seq<char>)
    ensures
        backers(submissions, hash) == supporters(hashed(submissions), hash),
{
    assert forall|i: int| #[trigger] backers(submissions, hash).contains(i) == supporters(
        hashed(submissions),
        hash,
    ).contains(i) by {}
    assert(backers(submissions, hash) =~= supporters(hashed(submissions), hash));
}

proof fn lemma_last_batch(submissions: Submissions, last: int)
    requires
        0 <= last < submissions.len(),
        forall|j: int|
            last < j < submissions.len() ==> batch_hash((#[trigger] submissions[j]).1.results)
                != batch_hash(submissions[last].1.results),
    ensures
        last_batch(submissions, batch_hash(submissions[last].1.results))
            == submissions[last].1.results,
    decreases submissions.len(),
{
    if last < submissions.len() - 1 {
        let front = submissions.drop_last();
        assert(batch_hash(submissions[submissions.len() - 1].1.results) != batch_hash(
            submissions[last].1.results,
        ));
        assert forall|j: int| last < j < front.len() implies batch_hash(
            (#[trigger] front[j]).1.results,
        ) != batch_hash(front[last].1.results) by {
            assert(front[j] == submissions[j]);
        }
        lemma_last_batch(front, last);
    }
}

/// Where all expected results are there and the fingerprint of one of them has
/// more than two thirds of the providers behind it, that result is verified: of
/// several with this fingerprint the last. Those behind it are named as honest and
/// all others as malicious, in the order of their submissions.
pub proof fn law_supported_result_is_verified(
    submissions: Submissions,
    expected: int,
    last: int,
)
    requires
        expected <= submissions.len() <= usize::MAX,
        0 <= last < submissions.len(),
        forall|j: int|
            last < j < submissions.len() ==> batch_hash((#[trigger] submissions[j]).1.results)
                != batch_hash(submissions[last].1.results),
        3 * backers(submissions, batch_hash(submissions[last].1.results)).len() > 2
            * submissions.len(),
    ensures
        ({
            let hash = batch_hash(submissions[last].1.results);
            status(submissions, expected) == VerificationView::Verified {
                result: submissions[last].1.results,
                votes: backers(submissions, hash).len() as int,
                total: submissions.len() as int,
                honest_providers: submissions.filter(
                    |e: (Seq<u8>, ProviderView)| batch_hash(e.1.results) == hash,
                ).map_values(|e: (Seq<u8>, ProviderView)| e.0),
                malicious_providers: submissions.filter(
                    |e: (Seq<u8>, ProviderView)| batch_hash(e.1.results) != hash,
                ).map_values(|e: (Seq<u8>, ProviderView)| e.0),
                consensus_result_hash: hash,
            }
        }),
{
    let hash = batch_hash(submissions[last].1.results);
    let votes = hashed(submissions);
    lemma_backers(submissions, hash);
    law_vote_is_counted(votes, data_by_hash(votes), hash);
    lemma_hash_is_there(submissions, last);
    lemma_data_is_known(submissions, hash);
    lemma_last_batch(submissions, last);
    lemma_voters_by_batch(submissions, hash);
}

proof fn lemma_hash_is_there(submissions: Submissions, i: int)
    requires
        0 <= i < submissions.len(),
    ensures
        count(hashes_of(hashed(submissions)), batch_hash(submissions[i].1.results)) > 0,
{
    let hashes = hashes_of(hashed(submissions));
    assert(hashes[i] == batch_hash(submissions[i].1.results));
    assert(hashes.contains(hashes[i]));
    lemma_count_bound(hashes, hashes[i]);
}

proof fn lemma_voters_by_batch(submissions: Submissions, hash: Seq<char>)
    ensures
        voters(hashed(submissions), hash, true) == submissions.filter(
            |e: (Seq<u8>, ProviderView)| batch_hash(e.1.results) == hash,
        ).map_values(|e: (Seq<u8>, ProviderView)| e.0),
        voters(hashed(submissions), hash, false) == submissions.filter(
            |e: (Seq<u8>, ProviderView)| batch_hash(e.1.results) != hash,
        ).map_values(|e: (Seq<u8>, ProviderView)| e.0),
    decreases submissions.len(),
{
    reveal(Seq::filter);
    let same = |e: (Seq<u8>, ProviderView)| batch_hash(e.1.results) == hash;
    let other = |e: (Seq<u8>, ProviderView)| batch_hash(e.1.results) != hash;
    let id = |e: (Seq<u8>, ProviderView)| e.0;
    let votes = hashed(submissions);
    if submissions.len() == 0 {
        assert(voters(votes, hash, true) =~= submissions.filter(same).map_values(id));
        assert(voters(votes, hash, false) =~= submissions.filter(other).map_values(id));
    } else {
        let front = submissions.drop_last();
        lemma_voters_by_batch(front, hash);
        assert(votes.drop_last() =~= hashed(front));
        let a = front.filter(same);
        let b = front.filter(other);
        let last = submissions.last();
        assert(a.push(last).map_values(id) =~= a.map_values(id).push(last.0));
        assert(b.push(last).map_values(id) =~= b.map_values(id).push(last.0));
        assert(voters(votes, hash, true) =~= submissions.filter(same).map_values(id));
        assert(voters(votes, hash, false) =~= submissions.filter(other).map_values(id));
    }
}

/// Where all expected results are there and no fingerprint has more than two
/// thirds of the providers behind it, verification fails. The failure says how
/// many are behind each fingerprint and what was submitted. It names, once each,
/// exactly the providers that deviate on a tenth of the commands and, unless all
/// agree, those that are not behind the fingerprint that leads.
pub proof fn law_divided_results_fail(
    submissions: Submissions,
    expected: int,
    hash: Seq<char>,
    leader: int,
    provider: Seq<u8>,
)
    requires
        keys_distinct(submissions),
        0 < submissions.len() <= usize::MAX,
        expected <= submissions.len(),
        forall|h: Seq<char>|
            3 * (#[trigger] backers(submissions, h)).len() <= 2 * submissions.len(),
        status(submissions, expected) matches VerificationView::Failed { distribution, .. }
            ==> 0 <= leader < distribution.len() && (forall|j: int|
            0 <= j < distribution.len() ==> (#[trigger] distribution[j]).1
                <= distribution[leader].1 && (j < leader ==> distribution[j].1
                < distribution[leader].1)),
    ensures
        match status(submissions, expected) {
            VerificationView::Failed { distribution, all_results, detected_malicious } => {
                let n = backers(submissions, hash).len();
                let suspects = tampered(
                    submissions.map_values(|e: (Seq<u8>, ProviderView)| e.1.results),
                    Quantity { micros: 100_000 },
                );
                &&& keys_distinct(distribution)
                &&& lookup(distribution, hash) == if n == 0 {
                    None
                } else {
                    Some(n as usize)
                }
                &&& all_results == submissions.map_values(|e: (Seq<u8>, ProviderView)| e.1)
                &&& detected_malicious.no_duplicates()
                &&& detected_malicious.contains(provider) <==> exists|i: int|
                    0 <= i < submissions.len() && (#[trigger] submissions[i]).0 == provider && (
                    suspects.contains(i as usize) || (distribution.len() > 1 && batch_hash(
                        submissions[i].1.results,
                    ) != distribution[leader].0))
            },
            _ => false,
        },
{
    let votes = hashed(submissions);
    assert forall|h: Seq<char>| 3 * (#[trigger] supporters(votes, h)).len() <= 2
        * votes.len() by {
        lemma_backers(submissions, h);
        assert(3 * backers(submissions, h).len() <= 2 * submissions.len());
    }
    lemma_backers(submissions, hash);
    law_vote_is_counted(votes, data_by_hash(votes), hash);
    let verdict = status(submissions, expected);
    let distribution = verdict->distribution;
    assert(is_leader(distribution, leader));
    let chosen = choose|i: int| is_leader(distribution, i);
    lemma_leader_unique(distribution, leader, chosen);
    let all = submitted_batches(submissions);
    assert(all =~= submissions.map_values(|e: (Seq<u8>, ProviderView)| e.1.results));
    assert(submitted(submissions) =~= submissions.map_values(
        |e: (Seq<u8>, ProviderView)| e.1,
    ));
    let ratio = Quantity { micros: 100_000 };
    let at = tampered(all, ratio);
    let found = providers_at(submissions, at);
    let flags = Seq::new(all.len(), |p: int| is_tampered(all, p, ratio));
    lemma_positions(flags, true);
    lemma_positions_once(flags, true);
    assert(found.no_duplicates()) by {
        assert forall|i: int, j: int|
            0 <= i < found.len() && 0 <= j < found.len() && i != j implies found[i] != found[j] by {
            assert(at[i] != at[j]);
            if at[i] < at[j] {
                assert(submissions[at[i] as int].0 != submissions[at[j] as int].0);
            } else {
                assert(submissions[at[j] as int].0 != submissions[at[i] as int].0);
            }
        }
    }
    let majority = distribution[leader].0;
    lemma_with_dissenters(found, votes, majority, provider);
    if found.contains(provider) {
        let j = choose|j: int| 0 <= j < found.len() && found[j] == provider;
        assert(at.contains(at[j]));
        assert(submissions[at[j] as int].0 == provider);
    }
    if exists|i: int|
        0 <= i < submissions.len() && (#[trigger] submissions[i]).0 == provider && at.contains(
            i as usize,
        ) {
        let i = choose|i: int|
            0 <= i < submissions.len() && (#[trigger] submissions[i]).0 == provider && at.contains(
                i as usize,
            );
        let j = choose|j: int| 0 <= j < at.len() && at[j] == i as usize;
        assert(found[j] == provider);
    }
    if exists|i: int|
        0 <= i < votes.len() && (#[trigger] votes[i]).0 == provider && votes[i].1.hash
            != majority {
        let i = choose|i: int|
            0 <= i < votes.len() && (#[trigger] votes[i]).0 == provider && votes[i].1.hash
                != majority;
        assert(submissions[i].0 == provider);
    }
    if exists|i: int|
        0 <= i < submissions.len() && (#[trigger] submissions[i]).0 == provider && batch_hash(
            submissions[i].1.results,
        ) != majority {
        let i = choose|i: int|
            0 <= i < submissions.len() && (#[trigger] submissions[i]).0 == provider && batch_hash(
                submissions[i].1.results,
            ) != majority;
        assert(votes[i].0 == provider && votes[i].1.hash != majority);
    }
}

/// While nothing was submitted the verdict is open, even where nothing is
/// expected.
pub proof fn law_nothing_submitted_is_pending(expected: int)
    requires
        expected <= 0,
    ensures
        status(Seq::empty(), expected) == (VerificationView::Pending { received: 0, required: 0 }),
{
}

/// A vote that failed, or whose winner cannot be read back, ends without a
/// distribution and without anyone being named; what was submitted is kept.
pub proof fn law_unreadable_winner_fails(
    submissions: Submissions,
    votes: Seq<(Seq<u8>, HashView)>,
    outcome: Result<OutcomeView, ErrorView>,
    verified: Option<Seq<CommandView>>,
)
    ensures
        ({
            let verdict = judged(submissions, votes, outcome, verified);
            let empty = VerificationView::Failed {
                distribution: Seq::empty(),
                all_results: submissions.map_values(|e: (Seq<u8>, ProviderView)| e.1),
                detected_malicious: Seq::empty(),
            };
            &&& outcome is Err ==> verdict == empty
            &&& outcome matches Ok(OutcomeView::Consensus { result, votes: agreeing, total })
                ==> match verified {
                None => verdict == empty,
                Some(batch) => verdict == VerificationView::Verified {
                    result: batch,
                    votes: agreeing,
                    total,
                    honest_providers: votes.filter(
                        |e: (Seq<u8>, HashView)| e.1.hash == result.hash,
                    ).map_values(|e: (Seq<u8>, HashView)| e.0),
                    malicious_providers: votes.filter(
                        |e: (Seq<u8>, HashView)| e.1.hash != result.hash,
                    ).map_values(|e: (Seq<u8>, HashView)| e.0),
                    consensus_result_hash: result.hash,
                },
            }
            &&& outcome matches Ok(OutcomeView::NoConsensus { distribution: found }) ==> (verdict
                matches VerificationView::Failed { distribution, .. } && distribution == found)
        }),
{
    assert(submitted(submissions) =~= submissions.map_values(
        |e: (Seq<u8>, ProviderView)| e.1,
    ));
    if let Ok(OutcomeView::Consensus { result, .. }) = outcome {
        law_voters_are_those_that_voted(votes, result.hash);
    }
}

/// Whether someone else voted for the given fingerprint.
pub open spec fn accomplice(
    votes: Seq<(Seq<u8>, HashView)>,
    hash: Seq<char>,
    except: Seq<u8>,
) -> spec_fn(Seq<u8>) -> bool {
    |other: Seq<u8>|
        other != except && lookup(votes, other) is Some && lookup(votes, other).unwrap().hash
            == hash
}

/// The circumstances of the offense of an accused provider that submitted
/// something and has a vote.
pub open spec fn circumstances(
    submissions: Submissions,
    votes: Seq<(Seq<u8>, HashView)>,
    accused: Seq<Seq<u8>>,
    correct_hash: Seq<char>,
    now: DateTime,
) -> spec_fn(Seq<u8>) -> Option<ContextView> {
    |provider: Seq<u8>|
        match (lookup(submissions, provider), lookup(votes, provider)) {
            (Some(own), Some(vote)) => Some(
                ContextView {
                    provider_id: provider,
                    offense_time: own.timestamp,
                    wrong_result_hash: vote.hash,
                    correct_result_hash: correct_hash,
                    offense_type: if format_check(own.results, now).offenses.len() > 0 {
                        format_check(own.results, now).offenses[0]
                    } else {
                        OffenseView::WrongResult
                    },
                    colluding_providers: accused.filter(accomplice(votes, vote.hash, provider)),
                    total_providers: submissions.len() as usize,
                    malicious_count: accused.len() as usize,
                    resource_usage: None,
                    cost_info: None,
                },
            ),
            _ => None,
        }
}

proof fn lemma_colluders_filtered(
    votes: Seq<(Seq<u8>, HashView)>,
    accused: Seq<Seq<u8>>,
    hash: Seq<char>,
    except: Seq<u8>,
)
    ensures
        colluders(votes, accused, hash, except) == accused.filter(
            accomplice(votes, hash, except),
        ),
    decreases accused.len(),
{
    reveal(Seq::filter);
    let pick = accomplice(votes, hash, except);
    if accused.len() > 0 {
        lemma_colluders_filtered(votes, accused.drop_last(), hash, except);
    }
    assert(colluders(votes, accused, hash, except) =~= accused.filter(pick));
}

/// Every accused provider that submitted something is described, in order: when it
/// submitted and what, the first violation of the format or else that the result
/// is wrong, and which of the other accused had the same wrong result. Of those
/// that submitted nothing there is nothing to say.
pub proof fn law_contexts_describe_the_accused(
    submissions: Submissions,
    votes: Seq<(Seq<u8>, HashView)>,
    accused: Seq<Seq<u8>>,
    correct_hash: Seq<char>,
    now: DateTime,
)
    ensures
        offense_contexts(submissions, votes, accused, correct_hash, now, accused.len())
            == accused.filter_map(circumstances(submissions, votes, accused, correct_hash, now)),
{
    lemma_contexts(submissions, votes, accused, correct_hash, now, accused.len());
    assert(accused.take(accused.len() as int) =~= accused);
}

proof fn lemma_contexts(
    submissions: Submissions,
    votes: Seq<(Seq<u8>, HashView)>,
    accused: Seq<Seq<u8>>,
    correct_hash: Seq<char>,
    now: DateTime,
    n: nat,
)
    requires
        n <= accused.len(),
    ensures
        offense_contexts(submissions, votes, accused, correct_hash, now, n) == accused.take(
            n as int,
        ).filter_map(circumstances(submissions, votes, accused, correct_hash, now)),
    decreases n,
{
    let f = circumstances(submissions, votes, accused, correct_hash, now);
    if n == 0 {
        assert(offense_contexts(submissions, votes, accused, correct_hash, now, n)
            =~= accused.take(0).filter_map(f));
    } else {
        let m = (n - 1) as nat;
        lemma_contexts(submissions, votes, accused, correct_hash, now, m);
        assert(accused.take(n as int).drop_last() =~= accused.take(m as int));
        let provider = accused[m as int];
        assert(accused.take(n as int).last() == provider);
        let before = offense_contexts(submissions, votes, accused, correct_hash, now, m);
        if let (Some(own), Some(vote)) = (lookup(submissions, provider), lookup(votes, provider)) {
            lemma_colluders_filtered(votes, accused, vote.hash, provider);
            let one = offense_context(submissions, votes, accused, provider, correct_hash, now);
            assert(f(provider) == Some(one));
            assert(before.push(one) =~= before + seq![one]);
        }
    }
}

/// The fingerprint of a batch is that of its JSON, so equal batches have equal
/// fingerprints, and every provider votes with its own batch.
pub proof fn law_votes_are_fingerprints(submissions: Submissions, i: int)
    requires
        0 <= i < submissions.len(),
        commands_json(submissions[i].1.results) is Some,
    ensures
        ({
            let data = commands_json(submissions[i].1.results).unwrap();
            &&& hashed(submissions).len() == submissions.len()
            &&& hashed(submissions)[i].0 == submissions[i].0
            &&& hashed(submissions)[i].1.data == data
            &&& hashed(submissions)[i].1.hash == fingerprint_text(data)
            &&& batch_hash(submissions[i].1.results) == fingerprint_text(data)
        }),
{
}

/// Whether a submission is not behind a fingerprint and its provider not listed.
pub open spec fn apart_from(majority: Seq<char>, listed: Seq<Seq<u8>>) -> spec_fn(
    (Seq<u8>, ProviderView),
) -> bool {
    |e: (Seq<u8>, ProviderView)| batch_hash(e.1.results) != majority && !listed.contains(e.0)
}

proof fn lemma_dissenters_by_entry(
    listed: Seq<Seq<u8>>,
    submissions: Submissions,
    majority: Seq<char>,
)
    requires
        keys_distinct(submissions),
    ensures
        with_dissenters(listed, hashed(submissions), majority) == listed + submissions.filter(
            apart_from(majority, listed),
        ).map_values(|e: (Seq<u8>, ProviderView)| e.0),
    decreases submissions.len(),
{
    broadcast use vstd::seq_lib::group_filter_ensures;

    reveal(Seq::filter);
    let apart = apart_from(majority, listed);
    let id = |e: (Seq<u8>, ProviderView)| e.0;
    if submissions.len() > 0 {
        let front = submissions.drop_last();
        let last = submissions.last();
        let votes = hashed(submissions);
        lemma_dissenters_by_entry(listed, front, majority);
        assert(votes.drop_last() =~= hashed(front));
        let some = front.filter(apart);
        let before = listed + some.map_values(id);
        assert(before.contains(last.0) <==> listed.contains(last.0)) by {
            if listed.contains(last.0) {
                let j = choose|j: int| 0 <= j < listed.len() && listed[j] == last.0;
                assert(before[j] == last.0);
            }
            if before.contains(last.0) && !listed.contains(last.0) {
                let j = choose|j: int| 0 <= j < before.len() && before[j] == last.0;
                if j < listed.len() {
                    assert(listed[j] == last.0);
                }
                let at = j - listed.len();
                assert(some[at].0 == last.0);
                assert(some.contains(some[at]));
                front.lemma_filter_contains_rev(apart, some[at]);
                let i = choose|i: int| 0 <= i < front.len() && front[i] == some[at];
                assert(submissions[i].0 != submissions[submissions.len() - 1].0);
            }
        }
        assert(some.push(last).map_values(id) =~= some.map_values(id).push(last.0));
        assert(with_dissenters(listed, votes, majority) =~= listed + submissions.filter(
            apart,
        ).map_values(id));
    } else {
        assert(hashed(submissions).len() == 0);
        assert(with_dissenters(listed, hashed(submissions), majority) =~= listed
            + submissions.filter(apart).map_values(id));
    }
}

/// A failed verification names those first that deviate on a tenth of the
/// commands, in the order of their submissions, and behind them, unless all agree,
/// the others that are not behind the fingerprint that leads, in the same order.
pub proof fn law_tamperers_are_named_first(submissions: Submissions, expected: int, leader: int)
    requires
        keys_distinct(submissions),
        0 < submissions.len() <= usize::MAX,
        expected <= submissions.len(),
        forall|h: Seq<char>|
            3 * (#[trigger] backers(submissions, h)).len() <= 2 * submissions.len(),
        status(submissions, expected) matches VerificationView::Failed { distribution, .. }
            ==> 0 <= leader < distribution.len() && (forall|j: int|
            0 <= j < distribution.len() ==> (#[trigger] distribution[j]).1
                <= distribution[leader].1 && (j < leader ==> distribution[j].1
                < distribution[leader].1)),
    ensures
        match status(submissions, expected) {
            VerificationView::Failed { distribution, detected_malicious, .. } => {
                let suspects = tampered(
                    submissions.map_values(|e: (Seq<u8>, ProviderView)| e.1.results),
                    Quantity { micros: 100_000 },
                ).map_values(|i: usize| submissions[i as int].0);
                detected_malicious == suspects + (if distribution.len() > 1 {
                    submissions.filter(apart_from(distribution[leader].0, suspects)).map_values(
                        |e: (Seq<u8>, ProviderView)| e.0,
                    )
                } else {
                    seq![]
                })
            },
            _ => false,
        },
{
    let votes = hashed(submissions);
    assert forall|h: Seq<char>| 3 * (#[trigger] supporters(votes, h)).len() <= 2
        * votes.len() by {
        lemma_backers(submissions, h);
        assert(3 * backers(submissions, h).len() <= 2 * submissions.len());
    }
    law_vote_is_counted(votes, data_by_hash(votes), seq![]);
    let distribution = status(submissions, expected)->distribution;
    let named = status(submissions, expected)->detected_malicious;
    assert(is_leader(distribution, leader));
    let chosen = choose|i: int| is_leader(distribution, i);
    lemma_leader_unique(distribution, leader, chosen);
    let all = submissions.map_values(|e: (Seq<u8>, ProviderView)| e.1.results);
    assert(submitted_batches(submissions) =~= all);
    let found = providers_at(submissions, tampered(all, Quantity { micros: 100_000 }));
    assert(found =~= tampered(all, Quantity { micros: 100_000 }).map_values(
        |i: usize| submissions[i as int].0,
    ));
    lemma_dissenters_by_entry(found, submissions, distribution[leader].0);
    if distribution.len() <= 1 {
        assert(named =~= found + seq![]);
    }
}

} // verus!
