//! The books: accounts, movements, commitments and disputes, and the rules by
//! which they change.
#[allow(unused_imports)]
use crate::digest::fingerprint_text;
use crate::fixed::Decimal;
#[allow(unused_imports)]
use crate::ordered_map::{find, keys_distinct, lemma_upsert_lookup, lookup, upsert};
#[allow(unused_imports)]
use crate::text::decimal_int;
use crate::time::DateTime;
#[allow(unused_imports)]
use crate::time::instant_text;
use crate::views::{duplicate_opt, Duplicate};
#[allow(unused_imports)]
use crate::views::view_opt;
use vstd::prelude::*;
#[allow(unused_imports)]
use vstd::utf8::encode_utf8;

verus! {

/// The account of a provider.
#[derive(Debug, PartialEq, Eq)]
pub struct ProviderRecord {
    /// The provider.
    pub provider_id: String,
    /// What is staked.
    pub stake: Decimal,
    /// What was earned and can be withdrawn.
    pub rewards: Decimal,
    /// What was taken away in all.
    pub slashed: Decimal,
    /// When the account changed last.
    pub updated_at: String,
}

/// A movement on an account.
#[derive(Debug, PartialEq, Eq)]
pub struct EventRecord {
    /// What happened: `register`, `stake`, `reward`, `slash` or `withdraw`.
    pub event_type: String,
    /// The amount.
    pub amount: Decimal,
    /// A remark.
    pub memo: Option<String>,
    /// When it happened.
    pub ts: String,
}

/// A provider's commitment to a result.
#[derive(Debug, PartialEq, Eq)]
pub struct CommitRecord {
    /// The task.
    pub task_id: String,
    /// The provider.
    pub provider_id: String,
    /// The fingerprint of the result and the salt.
    pub commitment_hash: String,
    /// The result, once it is revealed.
    pub revealed_result: Option<String>,
    /// The salt, once it is revealed.
    pub salt: Option<String>,
    /// Where it stands: `committed`, `revealed` or `disputed`.
    pub status: String,
    /// When it was made.
    pub created_at: String,
    /// When it changed last.
    pub updated_at: String,
}

/// A challenge of a provider's result.
#[derive(Debug, PartialEq, Eq)]
pub struct DisputeRecord {
    /// The number of the dispute.
    pub id: i64,
    /// The task.
    pub task_id: String,
    /// Who challenges.
    pub accuser_id: String,
    /// Who is challenged.
    pub defendant_id: String,
    /// What speaks against the result.
    pub evidence: Option<String>,
    /// Where it stands: `pending`, `resolved_guilty` or `resolved_innocent`.
    pub status: String,
    /// When it was raised.
    pub created_at: String,
    /// Where the commitment stood when it was challenged.
    pub prior_status: String,
}

/// Why a request is refused.
#[derive(Clone, Copy, Debug, PartialEq, Eq, Structural)]
pub enum StakingError {
    /// An amount is zero or less.
    AmountNotPositive,
    /// The provider has no account.
    ProviderNotRegistered,
    /// Someone without an account wants to commit.
    CommitterNotRegistered,
    /// Stake and rewards together do not cover a penalty.
    InsufficientFunds,
    /// The rewards do not cover a withdrawal.
    InsufficientRewards,
    /// The provider has committed for the task before.
    AlreadyCommitted,
    /// There is nothing to reveal.
    CommitmentNotFound,
    /// There is nothing to challenge.
    NoCommitment,
    /// There is no such dispute.
    DisputeNotFound,
    /// A balance would be too large to hold.
    OutOfRange,
    /// There are no more numbers for disputes.
    TooManyDisputes,
}

/// What an error says.
pub open spec fn staking_error_text(error: StakingError) -> Seq<char> {
    match error {
        StakingError::AmountNotPositive => "amount must be positive"@,
        StakingError::ProviderNotRegistered => "provider not registered"@,
        StakingError::CommitterNotRegistered => "Provider not registered"@,
        StakingError::InsufficientFunds => "insufficient funds to slash"@,
        StakingError::InsufficientRewards => "insufficient rewards to withdraw"@,
        StakingError::AlreadyCommitted => {
            "UNIQUE constraint failed: commits.task_id, commits.provider_id"@
        },
        StakingError::CommitmentNotFound => "Commitment not found"@,
        StakingError::NoCommitment => "Defendant has no commitment for this"@ + " task"@,
        StakingError::DisputeNotFound => "Query returned no rows"@,
        StakingError::OutOfRange => "amount out of range"@,
        StakingError::TooManyDisputes => "database or disk is full"@,
    }
}

impl StakingError {
    /// What the error says.
    pub fn to_text(&self) -> (text: String)
        ensures
            text@ == staking_error_text(*self),
    {
        match self {
            StakingError::AmountNotPositive => "amount must be positive".to_string(),
            StakingError::ProviderNotRegistered => "provider not registered".to_string(),
            StakingError::CommitterNotRegistered => "Provider not registered".to_string(),
            StakingError::InsufficientFunds => "insufficient funds to slash".to_string(),
            StakingError::InsufficientRewards => "insufficient rewards to withdraw".to_string(),
            StakingError::AlreadyCommitted => {
                "UNIQUE constraint failed: commits.task_id, commits.provider_id".to_string()
            },
            StakingError::CommitmentNotFound => "Commitment not found".to_string(),
            StakingError::NoCommitment => {
                let mut text = "Defendant has no commitment for this".to_string();
                text.append(" task");
                text
            },
            StakingError::DisputeNotFound => "Query returned no rows".to_string(),
            StakingError::OutOfRange => "amount out of range".to_string(),
            StakingError::TooManyDisputes => "database or disk is full".to_string(),
        }
    }
}

// ---------------------------------------------------------------- values

/// The mathematical value of a [`ProviderRecord`].
pub struct AccountView {
    pub provider_id: Seq<char>,
    pub stake: Decimal,
    pub rewards: Decimal,
    pub slashed: Decimal,
    pub updated_at: Seq<char>,
}

/// The mathematical value of an [`EventRecord`].
pub struct EventView {
    pub event_type: Seq<char>,
    pub amount: Decimal,
    pub memo: Option<Seq<char>>,
    pub ts: Seq<char>,
}

/// The mathematical value of a [`CommitRecord`].
pub struct CommitView {
    pub task_id: Seq<char>,
    pub provider_id: Seq<char>,
    pub commitment_hash: Seq<char>,
    pub revealed_result: Option<Seq<char>>,
    pub salt: Option<Seq<char>>,
    pub status: Seq<char>,
    pub created_at: Seq<char>,
    pub updated_at: Seq<char>,
}

/// The mathematical value of a [`DisputeRecord`].
pub struct DisputeView {
    pub id: i64,
    pub task_id: Seq<char>,
    pub accuser_id: Seq<char>,
    pub defendant_id: Seq<char>,
    pub evidence: Option<Seq<char>>,
    pub status: Seq<char>,
    pub created_at: Seq<char>,
    pub prior_status: Seq<char>,
}

impl View for ProviderRecord {
    type V = AccountView;

    open spec fn view(&self) -> AccountView {
        AccountView {
            provider_id: self.provider_id@,
            stake: self.stake,
            rewards: self.rewards,
            slashed: self.slashed,
            updated_at: self.updated_at@,
        }
    }
}

impl View for EventRecord {
    type V = EventView;

    open spec fn view(&self) -> EventView {
        EventView {
            event_type: self.event_type@,
            amount: self.amount,
            memo: view_opt(self.memo),
            ts: self.ts@,
        }
    }
}

impl View for CommitRecord {
    type V = CommitView;

    open spec fn view(&self) -> CommitView {
        CommitView {
            task_id: self.task_id@,
            provider_id: self.provider_id@,
            commitment_hash: self.commitment_hash@,
            revealed_result: view_opt(self.revealed_result),
            salt: view_opt(self.salt),
            status: self.status@,
            created_at: self.created_at@,
            updated_at: self.updated_at@,
        }
    }
}

impl View for DisputeRecord {
    type V = DisputeView;

    open spec fn view(&self) -> DisputeView {
        DisputeView {
            id: self.id,
            task_id: self.task_id@,
            accuser_id: self.accuser_id@,
            defendant_id: self.defendant_id@,
            evidence: view_opt(self.evidence),
            status: self.status@,
            created_at: self.created_at@,
            prior_status: self.prior_status@,
        }
    }
}

impl Clone for ProviderRecord {
    fn clone(&self) -> (copy: Self)
        ensures
            copy@ == self@,
    {
        ProviderRecord {
            provider_id: self.provider_id.clone(),
            stake: self.stake,
            rewards: self.rewards,
            slashed: self.slashed,
            updated_at: self.updated_at.clone(),
        }
    }
}

impl Clone for EventRecord {
    fn clone(&self) -> (copy: Self)
        ensures
            copy@ == self@,
    {
        EventRecord {
            event_type: self.event_type.clone(),
            amount: self.amount,
            memo: duplicate_opt(&self.memo),
            ts: self.ts.clone(),
        }
    }
}

impl Clone for CommitRecord {
    fn clone(&self) -> (copy: Self)
        ensures
            copy@ == self@,
    {
        CommitRecord {
            task_id: self.task_id.clone(),
            provider_id: self.provider_id.clone(),
            commitment_hash: self.commitment_hash.clone(),
            revealed_result: duplicate_opt(&self.revealed_result),
            salt: duplicate_opt(&self.salt),
            status: self.status.clone(),
            created_at: self.created_at.clone(),
            updated_at: self.updated_at.clone(),
        }
    }
}

impl Clone for DisputeRecord {
    fn clone(&self) -> (copy: Self)
        ensures
            copy@ == self@,
    {
        DisputeRecord {
            id: self.id,
            task_id: self.task_id.clone(),
            accuser_id: self.accuser_id.clone(),
            defendant_id: self.defendant_id.clone(),
            evidence: duplicate_opt(&self.evidence),
            status: self.status.clone(),
            created_at: self.created_at.clone(),
            prior_status: self.prior_status.clone(),
        }
    }
}

impl Duplicate for ProviderRecord {
    fn duplicate(&self) -> (copy: Self) {
        self.clone()
    }
}

impl Duplicate for EventRecord {
    fn duplicate(&self) -> (copy: Self) {
        self.clone()
    }
}

// ---------------------------------------------------------------- state

/// The mathematical value of a [`StakingState`]. Events stand with their
/// provider, the oldest first.
pub struct StakingView {
    pub providers: Seq<(Seq<char>, AccountView)>,
    pub events: Seq<(Seq<char>, EventView)>,
    pub commits: Seq<((Seq<char>, Seq<char>), CommitView)>,
    pub disputes: Seq<(i64, DisputeView)>,
    pub next_dispute: int,
}

/// The state without accounts.
pub open spec fn empty_state() -> StakingView {
    StakingView {
        providers: Seq::empty(),
        events: Seq::empty(),
        commits: Seq::empty(),
        disputes: Seq::empty(),
        next_dispute: 1,
    }
}

/// Whether no key occurs twice in the state's tables, and the number of the next
/// dispute is one that no dispute has.
pub open spec fn is_consistent(state: StakingView) -> bool {
    &&& keys_distinct(state.providers)
    &&& keys_distinct(state.commits)
    &&& keys_distinct(state.disputes)
    &&& is_numbered(state)
}

/// Whether every dispute has a number below the next one, unless the numbers have
/// run out: the last there is, is not given to a dispute.
pub open spec fn is_numbered(state: StakingView) -> bool {
    &&& 1 <= state.next_dispute <= i64::MAX
    &&& forall|i: int|
        0 <= i < state.disputes.len() ==> (#[trigger] state.disputes[i]).0 < state.next_dispute
            || state.next_dispute == i64::MAX
}

/// The state after a movement was written down.
pub open spec fn with_event(
    state: StakingView,
    pid: Seq<char>,
    event_type: Seq<char>,
    amount: Decimal,
    memo: Option<Seq<char>>,
    now: DateTime,
) -> StakingView {
    StakingView {
        events: state.events.push(
            (pid, EventView { event_type, amount, memo, ts: instant_text(now) }),
        ),
        ..state
    }
}

/// The state with an account as it is at the time `now`.
pub open spec fn with_account(
    state: StakingView,
    pid: Seq<char>,
    account: AccountView,
    now: DateTime,
) -> StakingView {
    StakingView {
        providers: upsert(
            state.providers,
            pid,
            AccountView { updated_at: instant_text(now), ..account },
        ),
        ..state
    }
}

/// Whether a number of millionths can be held.
pub open spec fn fits(micros: int) -> bool {
    i64::MIN <= micros <= i64::MAX
}

/// The account after it was opened at the time `now`. One that is open already
/// gets the given stake and keeps its rewards and penalties.
pub open spec fn opened(
    known: Option<AccountView>,
    pid: Seq<char>,
    stake: Decimal,
    now: DateTime,
) -> AccountView {
    let zero = Decimal { micros: 0 };
    AccountView {
        provider_id: pid,
        stake,
        rewards: match known {
            Some(account) => account.rewards,
            None => zero,
        },
        slashed: match known {
            Some(account) => account.slashed,
            None => zero,
        },
        updated_at: instant_text(now),
    }
}

/// An account is opened or opened again. The answer shows it as it is then.
pub open spec fn registered(
    state: StakingView,
    pid: Seq<char>,
    stake: Decimal,
    now: DateTime,
) -> (StakingView, AccountView) {
    let account = opened(lookup(state.providers, pid), pid, stake, now);
    (
        with_event(with_account(state, pid, account, now), pid, "register"@, stake, None, now),
        account,
    )
}

/// What a movement does to an account.
pub enum Movement {
    Stake,
    Reward,
    Slash,
    Withdraw,
}

/// The name of a movement.
pub open spec fn movement_text(movement: Movement) -> Seq<char> {
    match movement {
        Movement::Stake => "stake"@,
        Movement::Reward => "reward"@,
        Movement::Slash => "slash"@,
        Movement::Withdraw => "withdraw"@,
    }
}

/// The balances after a movement. A penalty is taken from the stake first and
/// then from the rewards.
pub open spec fn moved(account: AccountView, movement: Movement, amount: Decimal) -> Result<
    AccountView,
    StakingError,
> {
    let stake = account.stake.micros as int;
    let rewards = account.rewards.micros as int;
    let slashed = account.slashed.micros as int;
    let n = amount.micros as int;
    match movement {
        Movement::Stake => if fits(stake + n) {
            Ok(AccountView { stake: Decimal { micros: (stake + n) as i64 }, ..account })
        } else {
            Err(StakingError::OutOfRange)
        },
        Movement::Reward => if fits(rewards + n) {
            Ok(AccountView { rewards: Decimal { micros: (rewards + n) as i64 }, ..account })
        } else {
            Err(StakingError::OutOfRange)
        },
        Movement::Withdraw => if rewards < n {
            Err(StakingError::InsufficientRewards)
        } else {
            Ok(AccountView { rewards: Decimal { micros: (rewards - n) as i64 }, ..account })
        },
        Movement::Slash => if stake + rewards < n {
            Err(StakingError::InsufficientFunds)
        } else if !fits(slashed + n) {
            Err(StakingError::OutOfRange)
        } else if stake >= n {
            Ok(
                AccountView {
                    stake: Decimal { micros: (stake - n) as i64 },
                    slashed: Decimal { micros: (slashed + n) as i64 },
                    ..account
                },
            )
        } else {
            Ok(
                AccountView {
                    stake: Decimal { micros: 0 },
                    rewards: Decimal { micros: (stake + rewards - n) as i64 },
                    slashed: Decimal { micros: (slashed + n) as i64 },
                    ..account
                },
            )
        },
    }
}

/// The state after a movement, and the account as it is returned: with the new
/// balances and the time of the change before.
pub open spec fn transferred(
    state: StakingView,
    pid: Seq<char>,
    movement: Movement,
    amount: Decimal,
    memo: Option<Seq<char>>,
    now: DateTime,
) -> Result<(StakingView, AccountView), StakingError> {
    if amount.micros <= 0 {
        Err(StakingError::AmountNotPositive)
    } else {
        match lookup(state.providers, pid) {
            None => Err(StakingError::ProviderNotRegistered),
            Some(account) => match moved(account, movement, amount) {
                Err(error) => Err(error),
                Ok(after) => Ok(
                    (
                        with_event(
                            with_account(state, pid, after, now),
                            pid,
                            movement_text(movement),
                            amount,
                            memo,
                            now,
                        ),
                        after,
                    ),
                ),
            },
        }
    }
}

/// The movements on an account, the newest first.
pub open spec fn history(events: Seq<(Seq<char>, EventView)>, pid: Seq<char>) -> Seq<EventView>
    decreases events.len(),
{
    if events.len() == 0 {
        Seq::empty()
    } else if events.last().0 == pid {
        seq![events.last().1] + history(events.drop_last(), pid)
    } else {
        history(events.drop_last(), pid)
    }
}

/// At most a hundred movements on an account, the newest first.
pub open spec fn recent_events(state: StakingView, pid: Seq<char>) -> Seq<EventView> {
    let all = history(state.events, pid);
    if all.len() > 100 {
        all.take(100)
    } else {
        all
    }
}

/// A commitment that was just made.
pub open spec fn new_commit(
    task_id: Seq<char>,
    pid: Seq<char>,
    hash: Seq<char>,
    now: DateTime,
) -> CommitView {
    CommitView {
        task_id,
        provider_id: pid,
        commitment_hash: hash,
        revealed_result: None,
        salt: None,
        status: "committed"@,
        created_at: instant_text(now),
        updated_at: instant_text(now),
    }
}

/// The state with a commitment.
pub open spec fn with_commit(
    state: StakingView,
    task_id: Seq<char>,
    pid: Seq<char>,
    commit: CommitView,
) -> StakingView {
    StakingView { commits: upsert(state.commits, (task_id, pid), commit), ..state }
}

/// A provider commits to a result.
pub open spec fn committed(
    state: StakingView,
    task_id: Seq<char>,
    pid: Seq<char>,
    hash: Seq<char>,
    now: DateTime,
) -> Result<StakingView, StakingError> {
    if lookup(state.providers, pid) is None {
        Err(StakingError::CommitterNotRegistered)
    } else if lookup(state.commits, (task_id, pid)) is Some {
        Err(StakingError::AlreadyCommitted)
    } else {
        Ok(with_commit(state, task_id, pid, new_commit(task_id, pid, hash, now)))
    }
}

/// The commitment to a result and a salt.
pub open spec fn commitment(result: Seq<char>, salt: Seq<char>) -> Seq<char> {
    fingerprint_text(encode_utf8(result + salt))
}

/// A provider reveals its result, which has the given fingerprint together with
/// its salt. It counts where that is what was committed to.
pub open spec fn accepted(
    state: StakingView,
    task_id: Seq<char>,
    pid: Seq<char>,
    result: Seq<char>,
    salt: Seq<char>,
    hash: Seq<char>,
    now: DateTime,
) -> Result<(StakingView, bool), StakingError> {
    match lookup(state.commits, (task_id, pid)) {
        None => Err(StakingError::CommitmentNotFound),
        Some(commit) => if hash != commit.commitment_hash {
            Ok((state, false))
        } else {
            Ok(
                (
                    with_commit(
                        state,
                        task_id,
                        pid,
                        CommitView {
                            revealed_result: Some(result),
                            salt: Some(salt),
                            status: "revealed"@,
                            updated_at: instant_text(now),
                            ..commit
                        },
                    ),
                    true,
                ),
            )
        },
    }
}

/// A provider reveals its result.
pub open spec fn revealed(
    state: StakingView,
    task_id: Seq<char>,
    pid: Seq<char>,
    result: Seq<char>,
    salt: Seq<char>,
    now: DateTime,
) -> Result<(StakingView, bool), StakingError> {
    accepted(state, task_id, pid, result, salt, commitment(result, salt), now)
}

/// A provider's result is challenged.
pub open spec fn challenged(
    state: StakingView,
    task_id: Seq<char>,
    accuser: Seq<char>,
    defendant: Seq<char>,
    evidence: Option<Seq<char>>,
    now: DateTime,
) -> Result<(StakingView, int), StakingError> {
    match lookup(state.commits, (task_id, defendant)) {
        None => Err(StakingError::NoCommitment),
        Some(commit) => if state.next_dispute >= i64::MAX {
            Err(StakingError::TooManyDisputes)
        } else {
            let id = state.next_dispute;
            let raised = StakingView {
                disputes: upsert(
                    state.disputes,
                    id as i64,
                    DisputeView {
                        id: id as i64,
                        task_id,
                        accuser_id: accuser,
                        defendant_id: defendant,
                        evidence,
                        status: "pending"@,
                        created_at: instant_text(now),
                        prior_status: commit.status,
                    },
                ),
                next_dispute: id + 1,
                ..state
            };
            Ok(
                (
                    with_commit(
                        raised,
                        task_id,
                        defendant,
                        CommitView {
                            status: "disputed"@,
                            updated_at: instant_text(now),
                            ..commit
                        },
                    ),
                    id,
                ),
            )
        },
    }
}

/// The penalty for losing a dispute.
pub open spec fn dispute_penalty() -> Decimal {
    Decimal { micros: 100_000_000 }
}

/// The reward for winning a dispute: half of the penalty.
pub open spec fn dispute_reward() -> Decimal {
    Decimal { micros: 50_000_000 }
}

/// The remark on the penalty for a dispute.
pub open spec fn dispute_memo(id: i64) -> Seq<char> {
    "Dispute #"@ + decimal_int(id as int)
}

/// The state in which a dispute is settled.
pub open spec fn settled(state: StakingView, dispute: DisputeView, guilty: bool) -> StakingView {
    StakingView {
        disputes: upsert(
            state.disputes,
            dispute.id,
            DisputeView {
                status: if guilty {
                    "resolved_guilty"@
                } else {
                    "resolved_innocent"@
                },
                ..dispute
            },
        ),
        ..state
    }
}

/// The state in which a commitment no longer counts as disputed: it stands again
/// where it stood when it was challenged. One that was revealed meanwhile stays
/// so.
pub open spec fn cleared(state: StakingView, dispute: DisputeView, now: DateTime) -> StakingView {
    match lookup(state.commits, (dispute.task_id, dispute.defendant_id)) {
        Some(commit) if commit.status == "disputed"@ => with_commit(
            state,
            dispute.task_id,
            dispute.defendant_id,
            CommitView {
                status: dispute.prior_status,
                updated_at: instant_text(now),
                ..commit
            },
        ),
        _ => state,
    }
}

/// A dispute is settled. Where the defendant is guilty it is slashed and the
/// accuser is rewarded. A step that fails leaves the steps before it done. Where
/// the defendant is innocent its commitment is cleared.
pub open spec fn resolved(state: StakingView, id: i64, guilty: bool, now: DateTime) -> (
    StakingView,
    Result<(), StakingError>,
) {
    match lookup(state.disputes, id) {
        None => (state, Err(StakingError::DisputeNotFound)),
        Some(dispute) => {
            let after = settled(state, DisputeView { id, ..dispute }, guilty);
            if !guilty {
                (cleared(after, dispute, now), Ok(()))
            } else {
                match transferred(
                    after,
                    dispute.defendant_id,
                    Movement::Slash,
                    dispute_penalty(),
                    Some(dispute_memo(id)),
                    now,
                ) {
                    Err(error) => (after, Err(error)),
                    Ok((punished, _)) => match transferred(
                        punished,
                        dispute.accuser_id,
                        Movement::Reward,
                        dispute_reward(),
                        None,
                        now,
                    ) {
                        Err(error) => (punished, Err(error)),
                        Ok((rewarded, _)) => (rewarded, Ok(())),
                    },
                }
            }
        },
    }
}

// ---------------------------------------------------------------- laws

/// A penalty takes its amount from stake and rewards together, the stake first,
/// and is added to what was taken before.
pub proof fn law_slash_is_conserved(account: AccountView, amount: Decimal)
    requires
        amount.micros > 0,
        moved(account, Movement::Slash, amount) is Ok,
    ensures
        ({
            let after = moved(account, Movement::Slash, amount)->Ok_0;
            &&& after.stake.micros + after.rewards.micros == account.stake.micros
                + account.rewards.micros - amount.micros
            &&& after.slashed.micros == account.slashed.micros + amount.micros
            &&& account.stake.micros >= amount.micros ==> after.rewards == account.rewards
            &&& account.stake.micros < amount.micros ==> after.stake.micros == 0
        }),
{
}

/// A penalty that stake and rewards do not cover is refused, and only such a
/// penalty is refused for want of funds.
pub proof fn law_slash_needs_funds(account: AccountView, amount: Decimal)
    ensures
        moved(account, Movement::Slash, amount) == Err::<AccountView, _>(
            StakingError::InsufficientFunds,
        ) <==> account.stake.micros + account.rewards.micros < amount.micros,
{
}

/// Rewards and withdrawals leave the stake alone, and a withdrawal never makes
/// the rewards negative.
pub proof fn law_stake_cannot_be_withdrawn(account: AccountView, amount: Decimal)
    requires
        amount.micros > 0,
    ensures
        moved(account, Movement::Withdraw, amount) matches Ok(after) ==> after.stake
            == account.stake && after.slashed == account.slashed && after.rewards.micros
            == account.rewards.micros - amount.micros && after.rewards.micros >= 0,
        moved(account, Movement::Reward, amount) matches Ok(after) ==> after.stake
            == account.stake && after.slashed == account.slashed && after.rewards.micros
            == account.rewards.micros + amount.micros,
        moved(account, Movement::Withdraw, amount) is Ok <==> account.rewards.micros
            >= amount.micros,
{
}

/// A reward can be withdrawn again, and that leaves the balances as they were.
pub proof fn law_reward_then_withdraw(account: AccountView, amount: Decimal)
    requires
        amount.micros > 0,
        account.rewards.micros >= 0,
        moved(account, Movement::Reward, amount) is Ok,
    ensures
        moved(moved(account, Movement::Reward, amount)->Ok_0, Movement::Withdraw, amount) == Ok::<
            _,
            StakingError,
        >(account),
{
}

/// A movement on one account leaves every other account alone, and neither
/// commitments nor disputes change.
pub proof fn law_other_accounts_are_untouched(
    state: StakingView,
    pid: Seq<char>,
    movement: Movement,
    amount: Decimal,
    memo: Option<Seq<char>>,
    now: DateTime,
    other: Seq<char>,
)
    requires
        keys_distinct(state.providers),
        transferred(state, pid, movement, amount, memo, now) is Ok,
        other != pid,
    ensures
        ({
            let after = transferred(state, pid, movement, amount, memo, now)->Ok_0.0;
            &&& lookup(after.providers, other) == lookup(state.providers, other)
            &&& history(after.events, other) == history(state.events, other)
            &&& after.commits == state.commits
            &&& after.disputes == state.disputes
        }),
{
    let account = lookup(state.providers, pid).unwrap();
    let moved_account = moved(account, movement, amount)->Ok_0;
    lemma_upsert_lookup(
        state.providers,
        pid,
        AccountView { updated_at: instant_text(now), ..moved_account },
        other,
    );
    let after = transferred(state, pid, movement, amount, memo, now)->Ok_0.0;
    assert(after.events.drop_last() =~= state.events);
}

/// Every movement is written down once, as the newest on its account.
pub proof fn law_movements_are_logged(
    state: StakingView,
    pid: Seq<char>,
    movement: Movement,
    amount: Decimal,
    memo: Option<Seq<char>>,
    now: DateTime,
)
    requires
        keys_distinct(state.providers),
        transferred(state, pid, movement, amount, memo, now) is Ok,
    ensures
        ({
            let (after, answer) = transferred(state, pid, movement, amount, memo, now)->Ok_0;
            let entry = EventView {
                event_type: movement_text(movement),
                amount,
                memo,
                ts: instant_text(now),
            };
            &&& history(after.events, pid) == seq![entry] + history(state.events, pid)
            &&& recent_events(after, pid)[0] == entry
            &&& lookup(after.providers, pid) == Some(
                AccountView { updated_at: instant_text(now), ..answer },
            )
        }),
{
    let (after, answer) = transferred(state, pid, movement, amount, memo, now)->Ok_0;
    assert(after.events.drop_last() =~= state.events);
    lemma_upsert_lookup(
        state.providers,
        pid,
        AccountView { updated_at: instant_text(now), ..answer },
        pid,
    );
}

/// No more than a hundred movements are shown.
pub proof fn law_events_are_bounded(state: StakingView, pid: Seq<char>)
    ensures
        recent_events(state, pid).len() <= 100,
        recent_events(state, pid).is_prefix_of(history(state.events, pid)),
{
    assert(history(state.events, pid).is_prefix_of(history(state.events, pid)));
}

/// Opening an account is written down, as the newest movement on it.
pub proof fn law_registration_is_logged(
    state: StakingView,
    pid: Seq<char>,
    stake: Decimal,
    now: DateTime,
)
    ensures
        history(registered(state, pid, stake, now).0.events, pid) == seq![
            EventView {
                event_type: "register"@,
                amount: stake,
                memo: None,
                ts: instant_text(now),
            },
        ] + history(state.events, pid),
{
    assert(registered(state, pid, stake, now).0.events.drop_last() =~= state.events);
}

/// Opening an account stores the given stake. A new account has no rewards or
/// penalties, and one that was open keeps its own. The answer is what is stored,
/// and no other account changes.
pub proof fn law_registration_sets_the_stake(
    state: StakingView,
    pid: Seq<char>,
    stake: Decimal,
    now: DateTime,
    other: Seq<char>,
)
    requires
        keys_distinct(state.providers),
    ensures
        ({
            let (after, answer) = registered(state, pid, stake, now);
            &&& lookup(after.providers, pid) == Some(answer)
            &&& answer.provider_id == pid
            &&& answer.stake == stake
            &&& answer.updated_at == instant_text(now)
            &&& lookup(state.providers, pid) matches Some(known) ==> answer.rewards
                == known.rewards && answer.slashed == known.slashed
            &&& lookup(state.providers, pid) is None ==> answer.rewards.micros == 0
                && answer.slashed.micros == 0
            &&& other != pid ==> lookup(after.providers, other) == lookup(state.providers, other)
            &&& other != pid ==> history(after.events, other) == history(state.events, other)
            &&& after.commits == state.commits
            &&& after.disputes == state.disputes
        }),
{
    let (after, answer) = registered(state, pid, stake, now);
    lemma_upsert_lookup(
        state.providers,
        pid,
        AccountView { updated_at: instant_text(now), ..answer },
        other,
    );
    assert(after.events.drop_last() =~= state.events);
}

/// Of two registrations the second decides about the stake.
pub proof fn law_last_registration_counts(
    state: StakingView,
    pid: Seq<char>,
    first: Decimal,
    second: Decimal,
    now: DateTime,
    later: DateTime,
)
    requires
        keys_distinct(state.providers),
    ensures
        ({
            let again = registered(registered(state, pid, first, now).0, pid, second, later).0;
            &&& lookup(again.providers, pid) is Some
            &&& lookup(again.providers, pid).unwrap().stake == second
            &&& again.events.len() == state.events.len() + 2
        }),
{
    let (once, answer) = registered(state, pid, first, now);
    law_registration_sets_the_stake(state, pid, first, now, pid);
    lemma_upsert_lookup(
        state.providers,
        pid,
        AccountView { updated_at: instant_text(now), ..answer },
        pid,
    );
    law_registration_sets_the_stake(once, pid, second, later, pid);
}

/// A provider that committed to a result can reveal it: the same result and
/// salt are accepted and kept.
pub proof fn law_honest_reveal_is_valid(
    state: StakingView,
    task_id: Seq<char>,
    pid: Seq<char>,
    result: Seq<char>,
    salt: Seq<char>,
    now: DateTime,
    later: DateTime,
)
    requires
        keys_distinct(state.commits),
        committed(state, task_id, pid, commitment(result, salt), now) is Ok,
    ensures
        ({
            let waiting = committed(state, task_id, pid, commitment(result, salt), now)->Ok_0;
            let outcome = revealed(waiting, task_id, pid, result, salt, later);
            &&& outcome is Ok
            &&& outcome->Ok_0.1
            &&& lookup(outcome->Ok_0.0.commits, (task_id, pid)) == Some(
                CommitView {
                    revealed_result: Some(result),
                    salt: Some(salt),
                    status: "revealed"@,
                    updated_at: instant_text(later),
                    ..new_commit(task_id, pid, commitment(result, salt), now)
                },
            )
        }),
{
    let key = (task_id, pid);
    let fresh = new_commit(task_id, pid, commitment(result, salt), now);
    lemma_upsert_lookup(state.commits, key, fresh, key);
    let waiting = upsert(state.commits, key, fresh);
    lemma_upsert_lookup(
        waiting,
        key,
        CommitView {
            revealed_result: Some(result),
            salt: Some(salt),
            status: "revealed"@,
            updated_at: instant_text(later),
            ..fresh
        },
        key,
    );
}

/// What does not have the fingerprint that was committed to is not accepted and
/// changes nothing.
pub proof fn law_wrong_reveal_is_invalid(
    state: StakingView,
    task_id: Seq<char>,
    pid: Seq<char>,
    result: Seq<char>,
    salt: Seq<char>,
    now: DateTime,
)
    requires
        lookup(state.commits, (task_id, pid)) is Some,
    ensures
        revealed(state, task_id, pid, result, salt, now) is Ok,
        revealed(state, task_id, pid, result, salt, now)->Ok_0.1 <==> commitment(result, salt)
            == lookup(state.commits, (task_id, pid)).unwrap().commitment_hash,
        !revealed(state, task_id, pid, result, salt, now)->Ok_0.1 ==> revealed(
            state,
            task_id,
            pid,
            result,
            salt,
            now,
        )->Ok_0.0 == state,
{
}

/// A provider commits once for a task: it cannot replace its commitment.
pub proof fn law_commitment_is_final(
    state: StakingView,
    task_id: Seq<char>,
    pid: Seq<char>,
    hash: Seq<char>,
    other_hash: Seq<char>,
    now: DateTime,
    later: DateTime,
)
    requires
        keys_distinct(state.commits),
        committed(state, task_id, pid, hash, now) is Ok,
    ensures
        committed(
            committed(state, task_id, pid, hash, now)->Ok_0,
            task_id,
            pid,
            other_hash,
            later,
        ) == Err::<StakingView, _>(StakingError::AlreadyCommitted),
{
    lemma_upsert_lookup(
        state.commits,
        (task_id, pid),
        new_commit(task_id, pid, hash, now),
        (task_id, pid),
    );
}

/// A challenge opens a dispute and marks the commitment; no money moves.
pub proof fn law_challenge_opens_a_dispute(
    state: StakingView,
    task_id: Seq<char>,
    accuser: Seq<char>,
    defendant: Seq<char>,
    evidence: Option<Seq<char>>,
    now: DateTime,
)
    requires
        is_consistent(state),
        challenged(state, task_id, accuser, defendant, evidence, now) is Ok,
    ensures
        ({
            let (after, id) = challenged(state, task_id, accuser, defendant, evidence, now)->Ok_0;
            &&& lookup(after.disputes, id as i64) == Some(
                DisputeView {
                    id: id as i64,
                    task_id,
                    accuser_id: accuser,
                    defendant_id: defendant,
                    evidence,
                    status: "pending"@,
                    created_at: instant_text(now),
                    prior_status: lookup(state.commits, (task_id, defendant)).unwrap().status,
                },
            )
            &&& lookup(after.commits, (task_id, defendant)) is Some
            &&& lookup(after.commits, (task_id, defendant)).unwrap().status == "disputed"@
            &&& after.providers == state.providers
            &&& after.events == state.events
        }),
{
    let (after, id) = challenged(state, task_id, accuser, defendant, evidence, now)->Ok_0;
    let commit = lookup(state.commits, (task_id, defendant)).unwrap();
    lemma_upsert_lookup(
        state.disputes,
        id as i64,
        DisputeView {
            id: id as i64,
            task_id,
            accuser_id: accuser,
            defendant_id: defendant,
            evidence,
            status: "pending"@,
            created_at: instant_text(now),
            prior_status: commit.status,
        },
        id as i64,
    );
    lemma_upsert_lookup(
        state.commits,
        (task_id, defendant),
        CommitView { status: "disputed"@, updated_at: instant_text(now), ..commit },
        (task_id, defendant),
    );
}

/// A defendant that is found guilty loses a hundred, and the accuser gains
/// fifty.
pub proof fn law_guilty_pays(state: StakingView, id: i64, now: DateTime)
    requires
        keys_distinct(state.providers),
        lookup(state.disputes, id) is Some,
        lookup(state.disputes, id).unwrap().accuser_id != lookup(
            state.disputes,
            id,
        ).unwrap().defendant_id,
        resolved(state, id, true, now).1 is Ok,
    ensures
        ({
            let dispute = lookup(state.disputes, id).unwrap();
            let after = resolved(state, id, true, now).0;
            let loser = lookup(state.providers, dispute.defendant_id).unwrap();
            let winner = lookup(state.providers, dispute.accuser_id).unwrap();
            let loser_after = lookup(after.providers, dispute.defendant_id).unwrap();
            let winner_after = lookup(after.providers, dispute.accuser_id).unwrap();
            &&& loser_after.stake.micros + loser_after.rewards.micros == loser.stake.micros
                + loser.rewards.micros - 100_000_000
            &&& loser_after.slashed.micros == loser.slashed.micros + 100_000_000
            &&& winner_after.stake == winner.stake
            &&& winner_after.rewards.micros == winner.rewards.micros + 50_000_000
        }),
{
    let dispute = lookup(state.disputes, id).unwrap();
    let open = settled(state, DisputeView { id, ..dispute }, true);
    let memo = Some(dispute_memo(id));
    law_movements_are_logged(
        open,
        dispute.defendant_id,
        Movement::Slash,
        dispute_penalty(),
        memo,
        now,
    );
    law_other_accounts_are_untouched(
        open,
        dispute.defendant_id,
        Movement::Slash,
        dispute_penalty(),
        memo,
        now,
        dispute.accuser_id,
    );
    let loser = lookup(state.providers, dispute.defendant_id).unwrap();
    law_slash_is_conserved(loser, dispute_penalty());
    let punished = transferred(
        open,
        dispute.defendant_id,
        Movement::Slash,
        dispute_penalty(),
        memo,
        now,
    )->Ok_0.0;
    let loser_now = AccountView {
        updated_at: instant_text(now),
        ..moved(loser, Movement::Slash, dispute_penalty())->Ok_0
    };
    lemma_upsert_lookup(state.providers, dispute.defendant_id, loser_now, dispute.accuser_id);
    law_movements_are_logged(
        punished,
        dispute.accuser_id,
        Movement::Reward,
        dispute_reward(),
        None,
        now,
    );
    law_other_accounts_are_untouched(
        punished,
        dispute.accuser_id,
        Movement::Reward,
        dispute_reward(),
        None,
        now,
        dispute.defendant_id,
    );
}

/// A defendant that is found innocent loses nothing: no money moves, and the
/// dispute is closed.
pub proof fn law_innocent_loses_nothing(state: StakingView, id: i64, now: DateTime)
    requires
        keys_distinct(state.disputes),
        lookup(state.disputes, id) is Some,
    ensures
        ({
            let after = resolved(state, id, false, now).0;
            &&& resolved(state, id, false, now).1 is Ok
            &&& after.providers == state.providers
            &&& after.events == state.events
            &&& lookup(after.disputes, id).unwrap().status == "resolved_innocent"@
        }),
{
    let dispute = lookup(state.disputes, id).unwrap();
    lemma_upsert_lookup(
        state.disputes,
        id,
        DisputeView { status: "resolved_innocent"@, ..DisputeView { id, ..dispute } },
        id,
    );
}

/// A challenge that ends with a verdict of innocent leaves the commitment where
/// it stood before, and nothing else is changed by it: no account, no movement
/// and no other commitment.
pub proof fn law_innocent_is_restored(
    state: StakingView,
    task_id: Seq<char>,
    accuser: Seq<char>,
    defendant: Seq<char>,
    evidence: Option<Seq<char>>,
    now: DateTime,
    later: DateTime,
    other: (Seq<char>, Seq<char>),
)
    requires
        is_consistent(state),
        challenged(state, task_id, accuser, defendant, evidence, now) is Ok,
    ensures
        ({
            let key = (task_id, defendant);
            let (waiting, id) = challenged(state, task_id, accuser, defendant, evidence, now)->Ok_0;
            let (after, outcome) = resolved(waiting, id as i64, false, later);
            &&& outcome is Ok
            &&& lookup(after.commits, key) == Some(
                CommitView {
                    updated_at: instant_text(later),
                    ..lookup(state.commits, key).unwrap()
                },
            )
            &&& other != key ==> lookup(after.commits, other) == lookup(state.commits, other)
            &&& lookup(after.disputes, id as i64).unwrap().status == "resolved_innocent"@
            &&& after.providers == state.providers
            &&& after.events == state.events
        }),
{
    let key = (task_id, defendant);
    let (waiting, id) = challenged(state, task_id, accuser, defendant, evidence, now)->Ok_0;
    let commit = lookup(state.commits, key).unwrap();
    law_challenge_opens_a_dispute(state, task_id, accuser, defendant, evidence, now);
    let marked = CommitView { status: "disputed"@, updated_at: instant_text(now), ..commit };
    lemma_upsert_lookup(state.commits, key, marked, other);
    lemma_upsert_lookup(
        waiting.commits,
        key,
        CommitView { status: commit.status, updated_at: instant_text(later), ..marked },
        other,
    );
    lemma_upsert_lookup(
        state.disputes,
        id as i64,
        lookup(waiting.disputes, id as i64).unwrap(),
        id as i64,
    );
    law_innocent_loses_nothing(waiting, id as i64, later);
}

/// Whether no provider has negative rewards or a negative total of penalties.
pub open spec fn is_sound(state: StakingView) -> bool {
    forall|i: int|
        0 <= i < state.providers.len() ==> (#[trigger] state.providers[i]).1.rewards.micros >= 0
            && state.providers[i].1.slashed.micros >= 0
}

/// Every movement keeps rewards and penalties from becoming negative, and a
/// stake that is not negative stays so.
pub proof fn law_balances_stay_sound(
    state: StakingView,
    pid: Seq<char>,
    movement: Movement,
    amount: Decimal,
    memo: Option<Seq<char>>,
    now: DateTime,
)
    requires
        is_sound(state),
        transferred(state, pid, movement, amount, memo, now) is Ok,
    ensures
        is_sound(transferred(state, pid, movement, amount, memo, now)->Ok_0.0),
        lookup(state.providers, pid).unwrap().stake.micros >= 0 ==> transferred(
            state,
            pid,
            movement,
            amount,
            memo,
            now,
        )->Ok_0.1.stake.micros >= 0,
{
    let after = transferred(state, pid, movement, amount, memo, now)->Ok_0.0;
    let known = find(state.providers, pid).unwrap();
    assert(state.providers[known].1.rewards.micros >= 0);
    assert forall|i: int| 0 <= i < after.providers.len() implies (
    #[trigger] after.providers[i]).1.rewards.micros >= 0 && after.providers[i].1.slashed.micros
        >= 0 by {
        if i != known {
            assert(after.providers[i] == state.providers[i]);
        }
    }
}

/// Opening an account keeps rewards and penalties from being negative.
pub proof fn law_registration_is_sound(
    state: StakingView,
    pid: Seq<char>,
    stake: Decimal,
    now: DateTime,
)
    requires
        is_sound(state),
    ensures
        is_sound(registered(state, pid, stake, now).0),
{
    let after = registered(state, pid, stake, now).0;
    assert forall|i: int| 0 <= i < after.providers.len() implies (
    #[trigger] after.providers[i]).1.rewards.micros >= 0 && after.providers[i].1.slashed.micros
        >= 0 by {
        if i < state.providers.len() {
            assert(state.providers[i].1.rewards.micros >= 0);
        }
    }
}

/// A dispute never gets the number of an earlier one: in every state it gets one
/// above them all.
pub proof fn law_dispute_numbers_are_fresh(
    state: StakingView,
    task_id: Seq<char>,
    accuser: Seq<char>,
    defendant: Seq<char>,
    evidence: Option<Seq<char>>,
    now: DateTime,
)
    requires
        is_consistent(state),
        challenged(state, task_id, accuser, defendant, evidence, now) is Ok,
    ensures
        ({
            let (after, id) = challenged(state, task_id, accuser, defendant, evidence, now)->Ok_0;
            &&& lookup(state.disputes, id as i64) is None
            &&& forall|i: int|
                0 <= i < state.disputes.len() ==> (#[trigger] state.disputes[i]).0 < id
            &&& is_numbered(after)
        }),
{
    let (after, id) = challenged(state, task_id, accuser, defendant, evidence, now)->Ok_0;
    if find(state.disputes, id as i64) is Some {
        let i = find(state.disputes, id as i64).unwrap();
        assert(state.disputes[i].0 < state.next_dispute);
    }
    assert forall|i: int| 0 <= i < after.disputes.len() implies (#[trigger] after.disputes[i]).0
        < after.next_dispute by {
        if i < state.disputes.len() {
            assert(state.disputes[i].0 < state.next_dispute);
        }
    }
}

/// Whether the books are in order: they are consistent, and no rewards or
/// penalties are negative.
pub open spec fn in_order(state: StakingView) -> bool {
    is_consistent(state) && is_sound(state)
}

/// Books without entries are in order.
pub proof fn law_empty_books_are_in_order()
    ensures
        in_order(empty_state()),
{
}

/// A movement that is not refused keeps the books in order.
pub proof fn law_movements_keep_order(
    state: StakingView,
    pid: Seq<char>,
    movement: Movement,
    amount: Decimal,
    memo: Option<Seq<char>>,
    now: DateTime,
)
    requires
        in_order(state),
    ensures
        transferred(state, pid, movement, amount, memo, now) matches Ok((after, _)) ==> in_order(
            after,
        ),
{
    if let Ok((after, answer)) = transferred(state, pid, movement, amount, memo, now) {
        law_balances_stay_sound(state, pid, movement, amount, memo, now);
        lemma_upsert_lookup(
            state.providers,
            pid,
            AccountView { updated_at: instant_text(now), ..answer },
            pid,
        );
    }
}

/// Opening an account keeps the books in order.
pub proof fn law_registration_keeps_order(
    state: StakingView,
    pid: Seq<char>,
    stake: Decimal,
    now: DateTime,
)
    requires
        in_order(state),
    ensures
        in_order(registered(state, pid, stake, now).0),
{
    law_registration_is_sound(state, pid, stake, now);
    law_registration_sets_the_stake(state, pid, stake, now, pid);
    lemma_upsert_lookup(
        state.providers,
        pid,
        AccountView { updated_at: instant_text(now), ..registered(state, pid, stake, now).1 },
        pid,
    );
}

/// Commitments, reveals and challenges keep the books in order and move no
/// money.
pub proof fn law_promises_keep_order(
    state: StakingView,
    task_id: Seq<char>,
    pid: Seq<char>,
    text: Seq<char>,
    salt: Seq<char>,
    accuser: Seq<char>,
    evidence: Option<Seq<char>>,
    now: DateTime,
)
    requires
        in_order(state),
    ensures
        committed(state, task_id, pid, text, now) matches Ok(after) ==> in_order(after)
            && after.providers == state.providers && after.events == state.events,
        revealed(state, task_id, pid, text, salt, now) matches Ok((after, _)) ==> in_order(after)
            && after.providers == state.providers && after.events == state.events,
        challenged(state, task_id, accuser, pid, evidence, now) matches Ok((after, _))
            ==> in_order(after) && after.providers == state.providers && after.events
            == state.events,
{
    let key = (task_id, pid);
    if committed(state, task_id, pid, text, now) is Ok {
        lemma_upsert_lookup(state.commits, key, new_commit(task_id, pid, text, now), key);
    }
    if let Some(commit) = lookup(state.commits, key) {
        lemma_upsert_lookup(
            state.commits,
            key,
            CommitView {
                revealed_result: Some(text),
                salt: Some(salt),
                status: "revealed"@,
                updated_at: instant_text(now),
                ..commit
            },
            key,
        );
        if challenged(state, task_id, accuser, pid, evidence, now) is Ok {
            law_dispute_numbers_are_fresh(state, task_id, accuser, pid, evidence, now);
            lemma_upsert_lookup(
                state.commits,
                key,
                CommitView { status: "disputed"@, updated_at: instant_text(now), ..commit },
                key,
            );
            let id = state.next_dispute as i64;
            lemma_upsert_lookup(
                state.disputes,
                id,
                DisputeView {
                    id,
                    task_id,
                    accuser_id: accuser,
                    defendant_id: pid,
                    evidence,
                    status: "pending"@,
                    created_at: instant_text(now),
                    prior_status: commit.status,
                },
                id,
            );
        }
    }
}

/// Settling a dispute keeps the books in order, even where a step fails.
pub proof fn law_settlement_keeps_order(state: StakingView, id: i64, guilty: bool, now: DateTime)
    requires
        in_order(state),
    ensures
        in_order(resolved(state, id, guilty, now).0),
{
    if let Some(dispute) = lookup(state.disputes, id) {
        let after = settled(state, DisputeView { id, ..dispute }, guilty);
        let at = find(state.disputes, id).unwrap();
        lemma_upsert_lookup(state.disputes, id, after.disputes[at].1, id);
        assert(after.disputes =~= upsert(state.disputes, id, after.disputes[at].1));
        assert(is_numbered(after)) by {
            assert forall|i: int| 0 <= i < after.disputes.len() implies (
            #[trigger] after.disputes[i]).0 < after.next_dispute || after.next_dispute
                == i64::MAX by {
                assert(state.disputes[i].0 == after.disputes[i].0);
            }
        }
        assert(in_order(after));
        if !guilty {
            let key = (dispute.task_id, dispute.defendant_id);
            if let Some(commit) = lookup(state.commits, key) {
                lemma_upsert_lookup(
                    state.commits,
                    key,
                    CommitView {
                        status: dispute.prior_status,
                        updated_at: instant_text(now),
                        ..commit
                    },
                    key,
                );
            }
        }
        if guilty {
            let memo = Some(dispute_memo(id));
            law_movements_keep_order(
                after,
                dispute.defendant_id,
                Movement::Slash,
                dispute_penalty(),
                memo,
                now,
            );
            if let Ok((punished, _)) = transferred(
                after,
                dispute.defendant_id,
                Movement::Slash,
                dispute_penalty(),
                memo,
                now,
            ) {
                law_movements_keep_order(
                    punished,
                    dispute.accuser_id,
                    Movement::Reward,
                    dispute_reward(),
                    None,
                    now,
                );
            }
        }
    }
}

/// Adding to a stake raises it by exactly the amount and leaves rewards and the
/// total of penalties as they were. It is refused only where the sum cannot be
/// held.
pub proof fn law_stake_is_added(account: AccountView, amount: Decimal)
    requires
        amount.micros > 0,
    ensures
        moved(account, Movement::Stake, amount) is Ok <==> account.stake.micros + amount.micros
            <= i64::MAX,
        moved(account, Movement::Stake, amount) matches Ok(after) ==> {
            &&& after.stake.micros == account.stake.micros + amount.micros
            &&& after.rewards == account.rewards
            &&& after.slashed == account.slashed
            &&& after.provider_id == account.provider_id
        },
{
}

/// Adding to a stake twice is as good as adding the sum once.
pub proof fn law_stakes_add_up(account: AccountView, first: Decimal, second: Decimal, sum: Decimal)
    requires
        first.micros > 0,
        second.micros > 0,
        sum.micros == first.micros + second.micros,
        moved(account, Movement::Stake, sum) is Ok,
    ensures
        ({
            let once = moved(account, Movement::Stake, first);
            &&& once is Ok
            &&& moved(once->Ok_0, Movement::Stake, second) == moved(account, Movement::Stake, sum)
        }),
{
}

/// A movement is refused exactly where its amount is not positive, where the
/// account is not open, where the money is not there, or where the new balance
/// cannot be held, and each refusal says which of these it was.
pub proof fn law_movements_are_refused_for_a_reason(
    state: StakingView,
    pid: Seq<char>,
    movement: Movement,
    amount: Decimal,
    memo: Option<Seq<char>>,
    now: DateTime,
)
    ensures
        ({
            let outcome = transferred(state, pid, movement, amount, memo, now);
            let n = amount.micros;
            &&& n <= 0 <==> outcome == Err::<(StakingView, AccountView), _>(
                StakingError::AmountNotPositive,
            )
            &&& n > 0 ==> match lookup(state.providers, pid) {
                None => outcome == Err::<(StakingView, AccountView), _>(
                    StakingError::ProviderNotRegistered,
                ),
                Some(account) => match movement {
                    Movement::Stake => {
                        &&& outcome is Ok <==> account.stake.micros + n <= i64::MAX
                        &&& outcome matches Err(error) ==> error == StakingError::OutOfRange
                    },
                    Movement::Reward => {
                        &&& outcome is Ok <==> account.rewards.micros + n <= i64::MAX
                        &&& outcome matches Err(error) ==> error == StakingError::OutOfRange
                    },
                    Movement::Withdraw => {
                        &&& outcome is Ok <==> account.rewards.micros >= n
                        &&& outcome matches Err(error) ==> error
                            == StakingError::InsufficientRewards
                    },
                    Movement::Slash => {
                        let covered = account.stake.micros + account.rewards.micros >= n;
                        &&& outcome is Ok <==> covered && account.slashed.micros + n <= i64::MAX
                        &&& outcome matches Err(error) ==> error == if covered {
                            StakingError::OutOfRange
                        } else {
                            StakingError::InsufficientFunds
                        }
                    },
                },
            }
        }),
{
}

/// A movement changes the balances that it is about, by its amount, and no others.
/// What is stored is what is answered, but for the time of the change. The
/// movement is written down under its name, and the rest of the books stays.
pub proof fn law_movements_change_the_balances(
    state: StakingView,
    pid: Seq<char>,
    movement: Movement,
    amount: Decimal,
    memo: Option<Seq<char>>,
    now: DateTime,
)
    requires
        keys_distinct(state.providers),
        transferred(state, pid, movement, amount, memo, now) is Ok,
    ensures
        ({
            let (after, answer) = transferred(state, pid, movement, amount, memo, now)->Ok_0;
            let account = lookup(state.providers, pid).unwrap();
            let stored = lookup(after.providers, pid).unwrap();
            let n = amount.micros;
            &&& lookup(after.providers, pid) is Some
            &&& stored == AccountView { updated_at: instant_text(now), ..answer }
            &&& answer.provider_id == account.provider_id
            &&& answer.updated_at == account.updated_at
            &&& match movement {
                Movement::Stake => stored.stake.micros == account.stake.micros + n
                    && stored.rewards == account.rewards && stored.slashed == account.slashed,
                Movement::Reward => stored.rewards.micros == account.rewards.micros + n
                    && stored.stake == account.stake && stored.slashed == account.slashed,
                Movement::Withdraw => stored.rewards.micros == account.rewards.micros - n
                    && stored.stake == account.stake && stored.slashed == account.slashed,
                Movement::Slash => {
                    let from_stake = if account.stake.micros >= n {
                        n as int
                    } else {
                        account.stake.micros as int
                    };
                    &&& stored.slashed.micros == account.slashed.micros + n
                    &&& stored.stake.micros == account.stake.micros - from_stake
                    &&& stored.rewards.micros == account.rewards.micros - (n - from_stake)
                },
            }
            &&& after.events == state.events.push(
                (
                    pid,
                    EventView {
                        event_type: match movement {
                            Movement::Stake => "stake"@,
                            Movement::Reward => "reward"@,
                            Movement::Slash => "slash"@,
                            Movement::Withdraw => "withdraw"@,
                        },
                        amount,
                        memo,
                        ts: instant_text(now),
                    },
                ),
            )
            &&& after.providers.len() == state.providers.len()
            &&& after.commits == state.commits
            &&& after.disputes == state.disputes
            &&& after.next_dispute == state.next_dispute
        }),
{
    law_movements_are_logged(state, pid, movement, amount, memo, now);
}

/// Opening an account adds one entry to the list of movements and touches neither
/// commitments nor disputes.
pub proof fn law_registration_adds_an_entry(
    state: StakingView,
    pid: Seq<char>,
    stake: Decimal,
    now: DateTime,
)
    ensures
        ({
            let after = registered(state, pid, stake, now).0;
            &&& after.events == state.events.push(
                (
                    pid,
                    EventView {
                        event_type: "register"@,
                        amount: stake,
                        memo: None,
                        ts: instant_text(now),
                    },
                ),
            )
            &&& after.commits == state.commits
            &&& after.disputes == state.disputes
            &&& after.next_dispute == state.next_dispute
        }),
{
}

/// The movements that are shown are those of the account, from the last that was
/// written down backwards, all of them up to a hundred.
pub proof fn law_newest_events_come_first(state: StakingView, pid: Seq<char>)
    ensures
        ({
            let own = state.events.filter(|e: (Seq<char>, EventView)| e.0 == pid);
            let shown = recent_events(state, pid);
            &&& shown.len() == if own.len() > 100 {
                100
            } else {
                own.len()
            }
            &&& forall|i: int|
                0 <= i < shown.len() ==> #[trigger] shown[i] == own[own.len() - 1 - i].1
        }),
{
    lemma_history_reversed(state.events, pid);
}

proof fn lemma_history_reversed(events: Seq<(Seq<char>, EventView)>, pid: Seq<char>)
    ensures
        ({
            let own = events.filter(|e: (Seq<char>, EventView)| e.0 == pid);
            let shown = history(events, pid);
            &&& shown.len() == own.len()
            &&& forall|i: int|
                0 <= i < shown.len() ==> #[trigger] shown[i] == own[own.len() - 1 - i].1
        }),
    decreases events.len(),
{
    reveal(Seq::filter);
    let is_own = |e: (Seq<char>, EventView)| e.0 == pid;
    if events.len() > 0 {
        let front = events.drop_last();
        lemma_history_reversed(front, pid);
        let before = front.filter(is_own);
        let shown = history(events, pid);
        let own = events.filter(is_own);
        if events.last().0 == pid {
            assert(own == before.push(events.last()));
            assert forall|i: int| 0 <= i < shown.len() implies #[trigger] shown[i] == own[own.len()
                - 1 - i].1 by {
                if i > 0 {
                    assert(shown[i] == history(front, pid)[i - 1]);
                }
            }
        } else {
            assert(own == before);
        }
    }
}

/// A commitment is taken exactly where the provider has an account and has not
/// committed to the task before. It is stored as it was handed in, with nothing
/// revealed, and nothing else changes.
pub proof fn law_commitments_are_taken(
    state: StakingView,
    task_id: Seq<char>,
    pid: Seq<char>,
    hash: Seq<char>,
    now: DateTime,
    other: (Seq<char>, Seq<char>),
)
    requires
        keys_distinct(state.commits),
    ensures
        ({
            let outcome = committed(state, task_id, pid, hash, now);
            let known = lookup(state.providers, pid) is Some;
            let open = lookup(state.commits, (task_id, pid)) is None;
            &&& outcome is Ok <==> known && open
            &&& !known ==> outcome == Err::<StakingView, _>(StakingError::CommitterNotRegistered)
            &&& known && !open ==> outcome == Err::<StakingView, _>(StakingError::AlreadyCommitted)
            &&& outcome matches Ok(after) ==> {
                &&& lookup(after.commits, (task_id, pid)) == Some(
                    CommitView {
                        task_id,
                        provider_id: pid,
                        commitment_hash: hash,
                        revealed_result: None,
                        salt: None,
                        status: "committed"@,
                        created_at: instant_text(now),
                        updated_at: instant_text(now),
                    },
                )
                &&& other != (task_id, pid) ==> lookup(after.commits, other) == lookup(
                    state.commits,
                    other,
                )
                &&& after.providers == state.providers
                &&& after.events == state.events
                &&& after.disputes == state.disputes
                &&& after.next_dispute == state.next_dispute
            }
        }),
{
    lemma_upsert_lookup(state.commits, (task_id, pid), new_commit(task_id, pid, hash, now), other);
}

/// A result is revealed to a commitment that exists. Where result and salt
/// together have the fingerprint that was committed to, both are stored and the
/// commitment counts as revealed; otherwise nothing changes. In no case does
/// anything else.
pub proof fn law_reveals_are_checked(
    state: StakingView,
    task_id: Seq<char>,
    pid: Seq<char>,
    result: Seq<char>,
    salt: Seq<char>,
    now: DateTime,
    other: (Seq<char>, Seq<char>),
)
    requires
        keys_distinct(state.commits),
    ensures
        ({
            let key = (task_id, pid);
            let known = lookup(state.commits, key);
            let outcome = revealed(state, task_id, pid, result, salt, now);
            &&& known is None ==> outcome == Err::<(StakingView, bool), _>(
                StakingError::CommitmentNotFound,
            )
            &&& known matches Some(commit) ==> {
                let fits = fingerprint_text(encode_utf8(result + salt)) == commit.commitment_hash;
                &&& outcome is Ok
                &&& outcome->Ok_0.1 == fits
                &&& !fits ==> outcome->Ok_0.0 == state
                &&& fits ==> lookup(outcome->Ok_0.0.commits, key) == Some(
                    CommitView {
                        task_id: commit.task_id,
                        provider_id: commit.provider_id,
                        commitment_hash: commit.commitment_hash,
                        revealed_result: Some(result),
                        salt: Some(salt),
                        status: "revealed"@,
                        created_at: commit.created_at,
                        updated_at: instant_text(now),
                    },
                )
                &&& other != key ==> lookup(outcome->Ok_0.0.commits, other) == lookup(
                    state.commits,
                    other,
                )
                &&& outcome->Ok_0.0.providers == state.providers
                &&& outcome->Ok_0.0.events == state.events
                &&& outcome->Ok_0.0.disputes == state.disputes
                &&& outcome->Ok_0.0.next_dispute == state.next_dispute
            }
        }),
{
    let key = (task_id, pid);
    if let Some(commit) = lookup(state.commits, key) {
        lemma_upsert_lookup(
            state.commits,
            key,
            CommitView {
                revealed_result: Some(result),
                salt: Some(salt),
                status: "revealed"@,
                updated_at: instant_text(now),
                ..commit
            },
            other,
        );
    }
}

/// A challenge is taken exactly where there is a commitment and a number is left
/// for the dispute. It marks the commitment and leaves what it holds; other
/// commitments and disputes stay as they are.
pub proof fn law_challenges_are_taken(
    state: StakingView,
    task_id: Seq<char>,
    accuser: Seq<char>,
    defendant: Seq<char>,
    evidence: Option<Seq<char>>,
    now: DateTime,
    other: (Seq<char>, Seq<char>),
    number: i64,
)
    requires
        is_consistent(state),
    ensures
        ({
            let key = (task_id, defendant);
            let known = lookup(state.commits, key);
            let outcome = challenged(state, task_id, accuser, defendant, evidence, now);
            &&& known is None ==> outcome == Err::<(StakingView, int), _>(
                StakingError::NoCommitment,
            )
            &&& known is Some && state.next_dispute == i64::MAX ==> outcome == Err::<
                (StakingView, int),
                _,
            >(StakingError::TooManyDisputes)
            &&& outcome is Ok <==> known is Some && state.next_dispute < i64::MAX
            &&& outcome matches Ok((after, id)) ==> {
                let commit = known.unwrap();
                &&& id == state.next_dispute
                &&& after.next_dispute == id + 1
                &&& lookup(after.commits, key) == Some(
                    CommitView {
                        task_id: commit.task_id,
                        provider_id: commit.provider_id,
                        commitment_hash: commit.commitment_hash,
                        revealed_result: commit.revealed_result,
                        salt: commit.salt,
                        status: "disputed"@,
                        created_at: commit.created_at,
                        updated_at: instant_text(now),
                    },
                )
                &&& other != key ==> lookup(after.commits, other) == lookup(state.commits, other)
                &&& number != id ==> lookup(after.disputes, number) == lookup(
                    state.disputes,
                    number,
                )
                &&& after.providers == state.providers
                &&& after.events == state.events
            }
        }),
{
    let key = (task_id, defendant);
    if let Some(commit) = lookup(state.commits, key) {
        lemma_upsert_lookup(
            state.commits,
            key,
            CommitView { status: "disputed"@, updated_at: instant_text(now), ..commit },
            other,
        );
        let id = state.next_dispute as i64;
        lemma_upsert_lookup(
            state.disputes,
            id,
            DisputeView {
                id,
                task_id,
                accuser_id: accuser,
                defendant_id: defendant,
                evidence,
                status: "pending"@,
                created_at: instant_text(now),
                prior_status: commit.status,
            },
            number,
        );
    }
}

/// Settling closes the dispute with its verdict and keeps what else it says, and
/// leaves every other dispute alone. A dispute that does not exist is refused and
/// nothing changes.
pub proof fn law_settlement_closes_the_dispute(
    state: StakingView,
    id: i64,
    guilty: bool,
    now: DateTime,
    other: i64,
)
    requires
        keys_distinct(state.disputes),
    ensures
        ({
            let (after, outcome) = resolved(state, id, guilty, now);
            &&& lookup(state.disputes, id) is None ==> after == state && outcome == Err::<(), _>(
                StakingError::DisputeNotFound,
            )
            &&& lookup(state.disputes, id) matches Some(dispute) ==> {
                &&& lookup(after.disputes, id) == Some(
                    DisputeView {
                        id,
                        task_id: dispute.task_id,
                        accuser_id: dispute.accuser_id,
                        defendant_id: dispute.defendant_id,
                        evidence: dispute.evidence,
                        status: if guilty {
                            "resolved_guilty"@
                        } else {
                            "resolved_innocent"@
                        },
                        created_at: dispute.created_at,
                        prior_status: dispute.prior_status,
                    },
                )
                &&& other != id ==> lookup(after.disputes, other) == lookup(state.disputes, other)
                &&& after.next_dispute == state.next_dispute
                &&& guilty ==> after.commits == state.commits
            }
        }),
{
    if let Some(dispute) = lookup(state.disputes, id) {
        lemma_upsert_lookup(
            state.disputes,
            id,
            DisputeView {
                status: if guilty {
                    "resolved_guilty"@
                } else {
                    "resolved_innocent"@
                },
                ..DisputeView { id, ..dispute }
            },
            other,
        );
    }
}

/// A verdict of guilty is carried out in two movements: a penalty of a hundred for
/// the defendant, with the number of the dispute as its remark, and then a reward
/// of fifty for the accuser. Where one of them is refused the settlement fails for
/// its reason, and what was done before stays.
pub proof fn law_guilt_is_two_movements(state: StakingView, id: i64, now: DateTime)
    requires
        lookup(state.disputes, id) is Some,
    ensures
        ({
            let dispute = lookup(state.disputes, id).unwrap();
            let (after, outcome) = resolved(state, id, true, now);
            let closed = StakingView { disputes: after.disputes, ..state };
            let penalty = transferred(
                closed,
                dispute.defendant_id,
                Movement::Slash,
                Decimal { micros: 100_000_000 },
                Some("Dispute #"@ + decimal_int(id as int)),
                now,
            );
            match penalty {
                Err(error) => after == closed && outcome == Err::<(), _>(error),
                Ok((punished, _)) => match transferred(
                    punished,
                    dispute.accuser_id,
                    Movement::Reward,
                    Decimal { micros: 50_000_000 },
                    None,
                    now,
                ) {
                    Err(error) => after == punished && outcome == Err::<(), _>(error),
                    Ok((rewarded, _)) => after == rewarded && outcome == Ok::<(), StakingError>(()),
                },
            }
        }),
{
    let dispute = lookup(state.disputes, id).unwrap();
    let closed = settled(state, DisputeView { id, ..dispute }, true);
    assert(resolved(state, id, true, now).0.disputes == closed.disputes);
    assert(closed == StakingView { disputes: closed.disputes, ..state });
}

/// A verdict of innocent takes the mark off the commitment, if it still has it:
/// the status from before the challenge comes back. Whatever else the commitment
/// holds, and every other one, stays.
pub proof fn law_innocence_takes_the_mark_off(
    state: StakingView,
    id: i64,
    now: DateTime,
    other: (Seq<char>, Seq<char>),
)
    requires
        keys_distinct(state.commits),
        lookup(state.disputes, id) is Some,
    ensures
        ({
            let dispute = lookup(state.disputes, id).unwrap();
            let key = (dispute.task_id, dispute.defendant_id);
            let (after, outcome) = resolved(state, id, false, now);
            let known = lookup(state.commits, key);
            &&& outcome == Ok::<(), StakingError>(())
            &&& after.providers == state.providers
            &&& after.events == state.events
            &&& known is None ==> after.commits == state.commits
            &&& known matches Some(commit) ==> if commit.status == "disputed"@ {
                lookup(after.commits, key) == Some(
                    CommitView {
                        task_id: commit.task_id,
                        provider_id: commit.provider_id,
                        commitment_hash: commit.commitment_hash,
                        revealed_result: commit.revealed_result,
                        salt: commit.salt,
                        status: dispute.prior_status,
                        created_at: commit.created_at,
                        updated_at: instant_text(now),
                    },
                )
            } else {
                after.commits == state.commits
            }
            &&& other != key ==> lookup(after.commits, other) == lookup(state.commits, other)
        }),
{
    let dispute = lookup(state.disputes, id).unwrap();
    let key = (dispute.task_id, dispute.defendant_id);
    if let Some(commit) = lookup(state.commits, key) {
        lemma_upsert_lookup(
            state.commits,
            key,
            CommitView { status: dispute.prior_status, updated_at: instant_text(now), ..commit },
            other,
        );
    }
}

/// Every reason for a refusal is told in words of its own.
pub proof fn law_refusals_are_told_apart(a: StakingError, b: StakingError)
    ensures
        staking_error_text(a) == staking_error_text(b) <==> a == b,
{
    reveal_strlit("amount must be positive");
    reveal_strlit("provider not registered");
    reveal_strlit("Provider not registered");
    reveal_strlit("insufficient funds to slash");
    reveal_strlit("insufficient rewards to withdraw");
    reveal_strlit("UNIQUE constraint failed: commits.task_id, commits.provider_id");
    reveal_strlit("Commitment not found");
    reveal_strlit("Defendant has no commitment for this");
    reveal_strlit(" task");
    reveal_strlit("Query returned no rows");
    reveal_strlit("amount out of range");
    reveal_strlit("database or disk is full");
    let first = |error: StakingError| (
        staking_error_text(error).len(),
        staking_error_text(error)[0],
        staking_error_text(error)[2],
    );
    assert(a != b ==> first(a) != first(b));
}

} // verus!
