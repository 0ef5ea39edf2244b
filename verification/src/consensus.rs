//! A simplified Byzantine fault tolerant consensus.
//!
//! A result is accepted where more than two thirds of the providers returned
//! it. Fewer than one third of dishonest providers can then neither push a
//! result through nor keep the honest one out.
use crate::error::{VerifierError, VerifierResult};
#[allow(unused_imports)]
use crate::error::ErrorView;
use crate::node::NodeId;
use crate::ordered_map::OrderedMap;
#[allow(unused_imports)]
use crate::ordered_map::{
    find, keys_distinct, keys_of, law_storing_keeps_the_order, lemma_find_at, lemma_upsert_lookup,
    lookup, upsert,
};
use crate::views::Duplicate;
#[allow(unused_imports)]
use crate::views::views;
use vstd::prelude::*;

verus! {

/// A result as a provider submitted it.
#[derive(Debug, PartialEq, Eq, Hash)]
pub struct ResultHash {
    /// The fingerprint of the result data.
    pub hash: String,
    /// The result data.
    pub data: Vec<u8>,
}

/// The mathematical value of a [`ResultHash`].
#[verifier::ext_equal]
pub struct HashView {
    pub hash: Seq<char>,
    pub data: Seq<u8>,
}

impl View for ResultHash {
    type V = HashView;

    open spec fn view(&self) -> HashView {
        HashView { hash: self.hash@, data: self.data@ }
    }
}

impl Clone for ResultHash {
    fn clone(&self) -> (copy: Self)
        ensures
            copy@ == self@,
    {
        ResultHash { hash: self.hash.clone(), data: self.data.duplicate() }
    }
}

/// The outcome of a vote.
#[derive(Debug, PartialEq, Eq)]
pub enum ConsensusOutcome {
    /// More than two thirds agree.
    Consensus {
        /// The result they agree on.
        result: ResultHash,
        /// The number of providers that agree.
        votes: usize,
        /// The number of providers.
        total: usize,
    },
    /// No result has enough votes.
    NoConsensus {
        /// The votes for each result.
        distribution: OrderedMap<String, usize>,
    },
}

/// The mathematical value of a [`ConsensusOutcome`].
pub enum OutcomeView {
    Consensus { result: HashView, votes: int, total: int },
    NoConsensus { distribution: Seq<(Seq<char>, usize)> },
}

impl View for ConsensusOutcome {
    type V = OutcomeView;

    open spec fn view(&self) -> OutcomeView {
        match *self {
            ConsensusOutcome::Consensus { result, votes, total } => OutcomeView::Consensus {
                result: result@,
                votes: votes as int,
                total: total as int,
            },
            ConsensusOutcome::NoConsensus { distribution } => OutcomeView::NoConsensus {
                distribution: distribution@,
            },
        }
    }
}

impl Clone for ConsensusOutcome {
    fn clone(&self) -> (copy: Self)
        ensures
            copy@ == self@,
    {
        match self {
            ConsensusOutcome::Consensus { result, votes, total } => ConsensusOutcome::Consensus {
                result: result.clone(),
                votes: *votes,
                total: *total,
            },
            ConsensusOutcome::NoConsensus { distribution } => ConsensusOutcome::NoConsensus {
                distribution: distribution.clone(),
            },
        }
    }
}

/// The mathematical value of what a vote returns.
pub open spec fn outcome_view(outcome: VerifierResult<ConsensusOutcome>) -> Result<
    OutcomeView,
    ErrorView,
> {
    match outcome {
        Ok(decided) => Ok(decided@),
        Err(error) => Err(error@),
    }
}

/// The least number of votes that is more than two thirds of `total`.
pub open spec fn quorum(total: int) -> int {
    if total <= 0 {
        0
    } else {
        (2 * total) / 3 + 1
    }
}

/// How often `item` occurs.
pub open spec fn count<A>(items: Seq<A>, item: A) -> nat
    decreases items.len(),
{
    if items.len() == 0 {
        0
    } else {
        count(items.drop_last(), item) + if items.last() == item {
            1nat
        } else {
            0nat
        }
    }
}

/// The hashes that the providers voted for, in order.
pub open spec fn hashes_of(results: Seq<(Seq<u8>, HashView)>) -> Seq<Seq<char>> {
    results.map_values(|entry: (Seq<u8>, HashView)| entry.1.hash)
}

/// The votes for each hash that got any, in order of first appearance.
pub open spec fn tally(hashes: Seq<Seq<char>>) -> Seq<(Seq<char>, usize)>
    decreases hashes.len(),
{
    if hashes.len() == 0 {
        Seq::empty()
    } else {
        let before = tally(hashes.drop_last());
        let votes: usize = match lookup(before, hashes.last()) {
            Some(n) => (n + 1) as usize,
            None => 1,
        };
        upsert(before, hashes.last(), votes)
    }
}

/// Whether the `i`-th entry is the first with the most votes.
pub open spec fn is_leader(votes: Seq<(Seq<char>, usize)>, i: int) -> bool {
    &&& 0 <= i < votes.len()
    &&& forall|j: int| 0 <= j < votes.len() ==> (#[trigger] votes[j]).1 <= votes[i].1
    &&& forall|j: int| 0 <= j < i ==> (#[trigger] votes[j]).1 < votes[i].1
}

/// Whether more than two thirds voted for `hash`.
pub open spec fn agreed(hashes: Seq<Seq<char>>, hash: Seq<char>) -> bool {
    hashes.len() > 0 && count(hashes, hash) >= quorum(hashes.len() as int)
}

/// The outcome of a vote over the submitted hashes, with the data of each hash.
pub open spec fn consensus(
    results: Seq<(Seq<u8>, HashView)>,
    data: Seq<(Seq<char>, Seq<u8>)>,
) -> Result<OutcomeView, ErrorView> {
    let hashes = hashes_of(results);
    if results.len() == 0 {
        Err(ErrorView::InsufficientResults { received: 0, required: 1 })
    } else if exists|hash: Seq<char>| agreed(hashes, hash) {
        let hash = choose|hash: Seq<char>| agreed(hashes, hash);
        match lookup(data, hash) {
            Some(bytes) => Ok(
                OutcomeView::Consensus {
                    result: HashView { hash, data: bytes },
                    votes: count(hashes, hash) as int,
                    total: results.len() as int,
                },
            ),
            None => Err(ErrorView::Internal("Result data not found for hash "@ + hash)),
        }
    } else {
        Ok(OutcomeView::NoConsensus { distribution: tally(hashes) })
    }
}

/// The providers whose hash equals `hash`, or differs from it, in order.
pub open spec fn voters(results: Seq<(Seq<u8>, HashView)>, hash: Seq<char>, same: bool) -> Seq<
    Seq<u8>,
>
    decreases results.len(),
{
    if results.len() == 0 {
        Seq::empty()
    } else {
        let before = voters(results.drop_last(), hash, same);
        if (results.last().1.hash == hash) == same {
            before.push(results.last().0)
        } else {
            before
        }
    }
}

/// An item occurs at most as often as there are items, and at all where it is
/// one of them.
pub proof fn lemma_count_bound<A>(items: Seq<A>, item: A)
    ensures
        count(items, item) <= items.len(),
        count(items, item) > 0 <==> items.contains(item),
    decreases items.len(),
{
    if items.len() > 0 {
        lemma_count_bound(items.drop_last(), item);
        if items.contains(item) {
            let i = choose|i: int| 0 <= i < items.len() && items[i] == item;
            if i < items.len() - 1 {
                assert(items.drop_last()[i] == item);
            }
        }
        if count(items.drop_last(), item) > 0 {
            let i = choose|i: int| 0 <= i < items.len() - 1 && items.drop_last()[i] == item;
            assert(items[i] == item);
        } else if items.last() == item {
            assert(items[items.len() - 1] == item);
        }
    }
}

proof fn lemma_tally(hashes: Seq<Seq<char>>, hash: Seq<char>)
    requires
        hashes.len() <= usize::MAX,
    ensures
        keys_distinct(tally(hashes)),
        lookup(tally(hashes), hash) == if count(hashes, hash) == 0 {
            None
        } else {
            Some(count(hashes, hash) as usize)
        },
    decreases hashes.len(),
{
    lemma_count_bound(hashes, hash);
    if hashes.len() > 0 {
        let front = hashes.drop_last();
        let last = hashes.last();
        lemma_tally(front, hash);
        lemma_tally(front, last);
        lemma_count_bound(front, last);
        let votes: usize = match lookup(tally(front), last) {
            Some(n) => (n + 1) as usize,
            None => 1,
        };
        lemma_upsert_lookup(tally(front), last, votes, hash);
    }
}

/// Every entry of a tally holds the votes for its hash.
proof fn lemma_tally_at(hashes: Seq<Seq<char>>, i: int)
    requires
        hashes.len() <= usize::MAX,
        0 <= i < tally(hashes).len(),
    ensures
        tally(hashes)[i].1 == count(hashes, tally(hashes)[i].0),
        0 < count(hashes, tally(hashes)[i].0) <= usize::MAX,
{
    let hash = tally(hashes)[i].0;
    lemma_tally(hashes, hash);
    lemma_find_at(tally(hashes), i);
    lemma_count_bound(hashes, hash);
}

/// Two different items occur at different places.
pub proof fn lemma_disjoint_counts<A>(items: Seq<A>, a: A, b: A)
    requires
        a != b,
    ensures
        count(items, a) + count(items, b) <= items.len(),
    decreases items.len(),
{
    if items.len() > 0 {
        lemma_disjoint_counts(items.drop_last(), a, b);
    }
}

/// Where there are votes, someone leads.
proof fn lemma_someone_leads(votes: Seq<(Seq<char>, usize)>)
    requires
        votes.len() > 0,
    ensures
        exists|i: int| is_leader(votes, i),
    decreases votes.len(),
{
    let front = votes.drop_last();
    let last = votes.len() - 1;
    if front.len() == 0 {
        assert(is_leader(votes, 0));
    } else {
        lemma_someone_leads(front);
        let i = choose|i: int| is_leader(front, i);
        assert(front[i] == votes[i]);
        if votes[last].1 > votes[i].1 {
            assert forall|j: int| 0 <= j < last implies (#[trigger] votes[j]).1 < votes[last].1 by {
                assert(front[j] == votes[j]);
            }
            assert(is_leader(votes, last));
        } else {
            assert forall|j: int| 0 <= j < votes.len() implies (#[trigger] votes[j]).1
                <= votes[i].1 by {
                if j < last {
                    assert(front[j] == votes[j]);
                }
            }
            assert forall|j: int| 0 <= j < i implies (#[trigger] votes[j]).1 < votes[i].1 by {
                assert(front[j] == votes[j]);
            }
            assert(is_leader(votes, i));
        }
    }
}

/// What more than half voted for leads.
pub proof fn lemma_majority_leads(hashes: Seq<Seq<char>>, hash: Seq<char>)
    requires
        hashes.len() <= usize::MAX,
        2 * count(hashes, hash) > hashes.len(),
    ensures
        exists|i: int| is_leader(tally(hashes), i),
        forall|i: int| #[trigger] is_leader(tally(hashes), i) ==> tally(hashes)[i].0 == hash,
{
    let votes = tally(hashes);
    lemma_tally(hashes, hash);
    let at = find(votes, hash).unwrap();
    lemma_tally_at(hashes, at);
    lemma_someone_leads(votes);
    assert forall|i: int| #[trigger] is_leader(votes, i) implies votes[i].0 == hash by {
        lemma_tally_at(hashes, i);
        assert(votes[at].1 <= votes[i].1);
        if votes[i].0 != hash {
            lemma_disjoint_counts(hashes, votes[i].0, hash);
        }
    }
}

/// Where not all agree, more than one result has votes.
pub proof fn lemma_several_have_votes(hashes: Seq<Seq<char>>, hash: Seq<char>)
    requires
        hashes.len() <= usize::MAX,
        0 < count(hashes, hash) < hashes.len(),
    ensures
        tally(hashes).len() > 1,
{
    let votes = tally(hashes);
    lemma_tally(hashes, hash);
    let at = find(votes, hash).unwrap();
    lemma_tally_at(hashes, at);
    lemma_another(hashes, hash);
    let other = choose|other: Seq<char>| other != hash && hashes.contains(other);
    lemma_count_bound(hashes, other);
    lemma_tally(hashes, other);
    let place = find(votes, other).unwrap();
    assert(votes[at].0 == hash && votes[place].0 == other);
}

proof fn lemma_another(hashes: Seq<Seq<char>>, hash: Seq<char>)
    requires
        count(hashes, hash) < hashes.len(),
    ensures
        exists|other: Seq<char>| other != hash && hashes.contains(other),
    decreases hashes.len(),
{
    if hashes.last() != hash {
        assert(hashes[hashes.len() - 1] == hashes.last());
        assert(hashes.contains(hashes.last()));
    } else {
        let front = hashes.drop_last();
        lemma_another(front, hash);
        let other = choose|other: Seq<char>| other != hash && front.contains(other);
        let i = choose|i: int| 0 <= i < front.len() && front[i] == other;
        assert(hashes[i] == other);
        assert(hashes.contains(other));
    }
}

/// A quorum is more than two thirds of the providers, and the least number of
/// votes that is.
pub proof fn law_quorum_exceeds_two_thirds(total: int, votes: int)
    requires
        total > 0,
    ensures
        votes >= quorum(total) <==> 3 * votes > 2 * total,
        quorum(total) <= total,
{
}

/// At most one result can have a quorum.
pub proof fn law_quorum_is_unique(hashes: Seq<Seq<char>>, a: Seq<char>, b: Seq<char>)
    requires
        agreed(hashes, a),
        agreed(hashes, b),
    ensures
        a == b,
{
    if a != b {
        lemma_disjoint_counts(hashes, a, b);
    }
}

/// Where fewer than one third of the providers deviate from a result whose data
/// is at hand, that result is the outcome.
pub proof fn law_honest_majority_wins(
    results: Seq<(Seq<u8>, HashView)>,
    data: Seq<(Seq<char>, Seq<u8>)>,
    hash: Seq<char>,
)
    requires
        3 * (results.len() - count(hashes_of(results), hash)) < results.len(),
        lookup(data, hash) is Some,
    ensures
        consensus(results, data) == Ok::<_, ErrorView>(
            OutcomeView::Consensus {
                result: HashView { hash, data: lookup(data, hash).unwrap() },
                votes: count(hashes_of(results), hash) as int,
                total: results.len() as int,
            },
        ),
{
    let hashes = hashes_of(results);
    assert(agreed(hashes, hash));
    let chosen = choose|hash: Seq<char>| agreed(hashes, hash);
    law_quorum_is_unique(hashes, hash, chosen);
}

/// Colluders that are no more than two thirds of the providers never push
/// their result through.
pub proof fn law_minority_never_wins(
    results: Seq<(Seq<u8>, HashView)>,
    data: Seq<(Seq<char>, Seq<u8>)>,
    hash: Seq<char>,
)
    requires
        3 * count(hashes_of(results), hash) <= 2 * results.len(),
    ensures
        consensus(results, data) matches Ok(OutcomeView::Consensus { result, .. }) ==> result.hash
            != hash,
{
    let hashes = hashes_of(results);
    if exists|h: Seq<char>| agreed(hashes, h) {
        let chosen = choose|h: Seq<char>| agreed(hashes, h);
        assert(agreed(hashes, chosen));
    }
}

/// The providers that voted for the outcome and those that did not are all the
/// providers, and those that did are as many as the votes.
pub proof fn law_voters_are_partitioned(results: Seq<(Seq<u8>, HashView)>, hash: Seq<char>)
    ensures
        voters(results, hash, true).len() == count(hashes_of(results), hash),
        voters(results, hash, true).len() + voters(results, hash, false).len() == results.len(),
        forall|i: int|
            0 <= i < results.len() ==> voters(
                results,
                hash,
                (#[trigger] results[i]).1.hash == hash,
            ).contains(results[i].0),
    decreases results.len(),
{
    if results.len() > 0 {
        let front = results.drop_last();
        law_voters_are_partitioned(front, hash);
        assert(hashes_of(results).drop_last() =~= hashes_of(front));
        assert forall|i: int| 0 <= i < results.len() implies voters(
            results,
            hash,
            (#[trigger] results[i]).1.hash == hash,
        ).contains(results[i].0) by {
            let same = results[i].1.hash == hash;
            let now = voters(results, hash, same);
            if i < results.len() - 1 {
                assert(front[i] == results[i]);
                let earlier = voters(front, hash, same);
                let j = choose|j: int| 0 <= j < earlier.len() && earlier[j] == results[i].0;
                assert(now[j] == results[i].0);
            } else {
                assert(now[now.len() - 1] == results[i].0);
            }
        }
    }
}

/// The consensus algorithm.
pub struct ConsensusEngine;

impl ConsensusEngine {
    /// The number of votes that consensus among so many providers takes: the
    /// least that is more than two thirds.
    pub fn min_votes_required(total_providers: usize) -> (votes: usize)
        ensures
            votes == quorum(total_providers as int),
    {
        if total_providers == 0 {
            return 0;
        }
        let third: usize = total_providers / 3;
        let rounded_up: usize = if total_providers % 3 == 0 {
            third
        } else {
            third + 1
        };
        total_providers - rounded_up + 1
    }

    /// Whether so many votes are consensus among so many providers.
    pub fn has_consensus(votes: usize, total_providers: usize) -> (enough: bool)
        ensures
            enough == (total_providers > 0 && votes >= quorum(total_providers as int)),
    {
        if total_providers == 0 {
            return false;
        }
        votes >= Self::min_votes_required(total_providers)
    }

    /// Runs the vote on the results of the providers. `result_data` holds the
    /// data for each hash.
    pub fn reach_consensus(
        results: &OrderedMap<NodeId, ResultHash>,
        result_data: &OrderedMap<String, Vec<u8>>,
    ) -> (outcome: VerifierResult<ConsensusOutcome>)
        ensures
            outcome_view(outcome) == consensus(results@, result_data@),
    {
        if results.is_empty() {
            return Err(VerifierError::InsufficientResults { received: 0, required: 1 });
        }
        let total_providers: usize = results.len();
        let min_votes: usize = Self::min_votes_required(total_providers);
        let ghost hashes = hashes_of(results@);
        let vote_counts = Self::count_votes(results);
        assert(vote_counts@.len() > 0);
        let winner: usize = most_votes(&vote_counts);
        let votes: usize = *vote_counts.value_at(winner);
        let winning_hash = vote_counts.key_at(winner);
        proof {
            lemma_tally_at(hashes, winner as int);
        }
        if votes >= min_votes {
            proof {
                assert(agreed(hashes, winning_hash@));
                let chosen = choose|hash: Seq<char>| agreed(hashes, hash);
                law_quorum_is_unique(hashes, winning_hash@, chosen);
            }
            match result_data.get(winning_hash) {
                Some(data) => Ok(
                    ConsensusOutcome::Consensus {
                        result: ResultHash { hash: winning_hash.clone(), data: data.duplicate() },
                        votes,
                        total: total_providers,
                    },
                ),
                None => {
                    let mut text = "Result data not found for hash ".to_string();
                    text.append(winning_hash.as_str());
                    Err(VerifierError::Internal(text))
                },
            }
        } else {
            assert forall|hash: Seq<char>| !agreed(hashes, hash) by {
                lemma_tally(hashes, hash);
                lemma_count_bound(hashes, hash);
                if count(hashes, hash) > 0 {
                    let i = find(vote_counts@, hash).unwrap();
                    assert(vote_counts@[i].1 <= votes);
                }
            }
            Ok(ConsensusOutcome::NoConsensus { distribution: vote_counts })
        }
    }

    /// Counts the votes for each hash.
    fn count_votes(results: &OrderedMap<NodeId, ResultHash>) -> (counts: OrderedMap<String, usize>)
        ensures
            counts@ == tally(hashes_of(results@)),
            hashes_of(results@).len() <= usize::MAX,
    {
        let ghost hashes = hashes_of(results@);
        proof {
            results.lemma_len_bound();
        }
        let mut counts: OrderedMap<String, usize> = OrderedMap::new();
        let mut i: usize = 0;
        while i < results.len()
            invariant
                i <= results@.len() <= usize::MAX,
                hashes == hashes_of(results@),
                counts@ == tally(hashes.take(i as int)),
            decreases results@.len() - i,
        {
            let hash = &results.value_at(i).hash;
            assert(hashes[i as int] == hash@);
            assert(hashes.take(i + 1).drop_last() =~= hashes.take(i as int));
            proof {
                lemma_tally(hashes.take(i as int), hash@);
                lemma_count_bound(hashes.take(i as int), hash@);
            }
            let votes: usize = match counts.get(hash) {
                Some(n) => *n + 1,
                None => 1,
            };
            counts.insert(hash.clone(), votes);
            i += 1;
        }
        assert(hashes.take(i as int) =~= hashes);
        counts
    }

    /// The providers that submitted something else than the consensus.
    pub fn identify_malicious_providers(
        results: &OrderedMap<NodeId, ResultHash>,
        consensus_hash: &str,
    ) -> (malicious: Vec<NodeId>)
        ensures
            views(malicious@) == voters(results@, consensus_hash@, false),
    {
        voters_of(results, consensus_hash, false)
    }
}

/// The first entry with the most votes.
pub(crate) fn most_votes(counts: &OrderedMap<String, usize>) -> (winner: usize)
    requires
        counts@.len() > 0,
    ensures
        is_leader(counts@, winner as int),
{
    let mut winner: usize = 0;
    let mut votes: usize = *counts.value_at(0);
    let mut i: usize = 1;
    while i < counts.len()
        invariant
            winner < i <= counts@.len(),
            votes == counts@[winner as int].1,
            forall|j: int| 0 <= j < i ==> (#[trigger] counts@[j]).1 <= votes,
            forall|j: int| 0 <= j < winner ==> (#[trigger] counts@[j]).1 < votes,
        decreases counts@.len() - i,
    {
        let other: usize = *counts.value_at(i);
        if other > votes {
            winner = i;
            votes = other;
        }
        i += 1;
    }
    winner
}

/// The providers whose hash equals `hash`, or differs from it.
pub fn voters_of(results: &OrderedMap<NodeId, ResultHash>, hash: &str, same: bool) -> (ids: Vec<NodeId>)
    ensures
        views(ids@) == voters(results@, hash@, same),
{
    let wanted = hash.to_string();
    let mut ids: Vec<NodeId> = Vec::new();
    assert(views(ids@) =~= Seq::<Seq<u8>>::empty());
    let mut i: usize = 0;
    while i < results.len()
        invariant
            i <= results@.len(),
            wanted@ == hash@,
            views(ids@) == voters(results@.take(i as int), hash@, same),
        decreases results@.len() - i,
    {
        assert(results@.take(i + 1).drop_last() =~= results@.take(i as int));
        let equal = results.value_at(i).hash == wanted;
        if equal == same {
            let ghost before = views(ids@);
            let id = *results.key_at(i);
            ids.push(id);
            assert(views(ids@) =~= before.push(id@));
        }
        i += 1;
    }
    assert(results@.take(i as int) =~= results@);
    ids
}

// ---------------------------------------------------------------- laws

/// Counting is what it should be: an item occurs as often as the multiset of all
/// items says.
pub proof fn law_count_is_multiplicity<A>(items: Seq<A>, item: A)
    ensures
        count(items, item) == items.to_multiset().count(item),
    decreases items.len(),
{
    broadcast use vstd::seq_lib::group_to_multiset_ensures;
    broadcast use vstd::multiset::group_multiset_axioms;

    if items.len() > 0 {
        law_count_is_multiplicity(items.drop_last(), item);
        assert(items.drop_last().push(items.last()) =~= items);
        assert(items.to_multiset() =~= items.drop_last().to_multiset().insert(items.last()));
    }
}

/// The providers that voted for a hash.
pub open spec fn supporters(results: Seq<(Seq<u8>, HashView)>, hash: Seq<char>) -> Set<int> {
    Set::new(|i: int| 0 <= i < results.len() && results[i].1.hash == hash)
}

proof fn lemma_supporters(results: Seq<(Seq<u8>, HashView)>, hash: Seq<char>)
    ensures
        supporters(results, hash).finite(),
        supporters(results, hash).len() == count(hashes_of(results), hash),
    decreases results.len(),
{
    let now = supporters(results, hash);
    if results.len() == 0 {
        assert(now =~= Set::empty());
    } else {
        let front = results.drop_last();
        let last = results.len() - 1;
        lemma_supporters(front, hash);
        let before = supporters(front, hash);
        assert(hashes_of(results).drop_last() =~= hashes_of(front));
        if results[last].1.hash == hash {
            assert(now =~= before.insert(last));
            assert(!before.contains(last));
        } else {
            assert(now =~= before);
        }
    }
}

/// A hash wins exactly where more than two thirds of the providers voted for it.
/// The outcome then holds the hash, its data, the number of its supporters and
/// that of all providers. Where the data is missing that is an error. Where no
/// hash wins the outcome says how many voted for each hash that has votes. A vote
/// of nobody is an error.
pub proof fn law_vote_is_counted(
    results: Seq<(Seq<u8>, HashView)>,
    data: Seq<(Seq<char>, Seq<u8>)>,
    hash: Seq<char>,
)
    requires
        results.len() <= usize::MAX,
    ensures
        ({
            let outcome = consensus(results, data);
            let votes = supporters(results, hash).len();
            &&& results.len() == 0 <==> outcome == Err::<OutcomeView, _>(
                ErrorView::InsufficientResults { received: 0, required: 1 },
            )
            &&& results.len() > 0 && 3 * votes > 2 * results.len() ==> outcome == match lookup(
                data,
                hash,
            ) {
                Some(bytes) => Ok::<_, ErrorView>(
                    OutcomeView::Consensus {
                        result: HashView { hash, data: bytes },
                        votes: votes as int,
                        total: results.len() as int,
                    },
                ),
                None => Err(ErrorView::Internal("Result data not found for hash "@ + hash)),
            }
            &&& results.len() > 0 && (forall|h: Seq<char>|
                3 * (#[trigger] supporters(results, h)).len() <= 2 * results.len()) ==> match outcome {
                Ok(OutcomeView::NoConsensus { distribution }) => keys_distinct(distribution)
                    && lookup(distribution, hash) == if votes == 0 {
                    None
                } else {
                    Some(votes as usize)
                },
                _ => false,
            }
        }),
{
    let hashes = hashes_of(results);
    lemma_supporters(results, hash);
    lemma_count_bound(hashes, hash);
    if 3 * supporters(results, hash).len() > 2 * results.len() {
        assert(agreed(hashes, hash));
        let chosen = choose|h: Seq<char>| agreed(hashes, h);
        law_quorum_is_unique(hashes, hash, chosen);
    }
    if forall|h: Seq<char>| 3 * (#[trigger] supporters(results, h)).len() <= 2 * results.len() {
        assert forall|h: Seq<char>| results.len() > 0 implies !agreed(hashes, h) by {
            lemma_supporters(results, h);
            assert(3 * supporters(results, h).len() <= 2 * results.len());
        }
        lemma_tally(hashes, hash);
    }
}

/// Those whose vote equals a hash, or differs from it, are listed in the order in
/// which they voted.
pub proof fn law_voters_are_those_that_voted(
    results: Seq<(Seq<u8>, HashView)>,
    hash: Seq<char>,
)
    ensures
        voters(results, hash, true) == results.filter(
            |e: (Seq<u8>, HashView)| e.1.hash == hash,
        ).map_values(|e: (Seq<u8>, HashView)| e.0),
        voters(results, hash, false) == results.filter(
            |e: (Seq<u8>, HashView)| e.1.hash != hash,
        ).map_values(|e: (Seq<u8>, HashView)| e.0),
    decreases results.len(),
{
    reveal(Seq::filter);
    let same = |e: (Seq<u8>, HashView)| e.1.hash == hash;
    let other = |e: (Seq<u8>, HashView)| e.1.hash != hash;
    let id = |e: (Seq<u8>, HashView)| e.0;
    if results.len() == 0 {
        assert(voters(results, hash, true) =~= results.filter(same).map_values(id));
        assert(voters(results, hash, false) =~= results.filter(other).map_values(id));
    } else {
        let front = results.drop_last();
        law_voters_are_those_that_voted(front, hash);
        let a = front.filter(same);
        let b = front.filter(other);
        let last = results.last();
        assert(a.push(last).map_values(id) =~= a.map_values(id).push(last.0));
        assert(b.push(last).map_values(id) =~= b.map_values(id).push(last.0));
        assert(voters(results, hash, true) =~= results.filter(same).map_values(id));
        assert(voters(results, hash, false) =~= results.filter(other).map_values(id));
    }
}

/// Without providers no vote is needed, and with them every further three raise
/// the quorum by two.
pub proof fn law_quorum_keeps_pace(total: int)
    requires
        total >= 0,
    ensures
        quorum(0) == 0,
        total > 0 ==> quorum(total + 3) == quorum(total) + 2,
        quorum(total) <= quorum(total + 1) <= quorum(total) + 1,
{
}

/// Where there is no consensus the hashes are listed in the order in which they
/// first came up: a vote for a known hash leaves the order alone, a vote for a new
/// one adds it at the end.
pub proof fn law_hashes_are_listed_as_they_came_up(hashes: Seq<Seq<char>>, hash: Seq<char>)
    requires
        hashes.len() < usize::MAX,
    ensures
        keys_of(tally(hashes.push(hash))) == (if hashes.contains(hash) {
            keys_of(tally(hashes))
        } else {
            keys_of(tally(hashes)).push(hash)
        }),
        tally(seq![]).len() == 0,
{
    let before = tally(hashes);
    assert(hashes.push(hash).drop_last() =~= hashes);
    lemma_tally(hashes, hash);
    lemma_count_bound(hashes, hash);
    let votes: usize = match lookup(before, hash) {
        Some(n) => (n + 1) as usize,
        None => 1,
    };
    law_storing_keeps_the_order(before, hash, votes);
    assert(keys_of(upsert(before, hash, votes)) =~= (if hashes.contains(hash) {
        keys_of(before)
    } else {
        keys_of(before).push(hash)
    }));
}

} // verus!
