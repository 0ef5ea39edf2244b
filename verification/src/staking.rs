//! Stakes, rewards and penalties of providers, and the settlement of disputes.
//!
//! Providers commit to results by their fingerprint and reveal them later. A
//! revealed result can be challenged; a provider that loses the dispute is
//! slashed.
use crate::digest::fingerprint;
use crate::fixed::Decimal;
pub use crate::ledger::{CommitRecord, DisputeRecord, EventRecord, ProviderRecord, StakingError};
#[allow(unused_imports)]
use crate::ledger::{
    accepted, challenged, cleared, committed, empty_state, history, is_consistent, moved,
    recent_events, registered, resolved, revealed, transferred, with_event, AccountView,
    CommitView, DisputeView, EventView, Movement, StakingView,
};
use crate::ordered_map::OrderedMap;
#[allow(unused_imports)]
use crate::ordered_map::{find, keys_distinct, lemma_upsert_lookup, lookup, upsert};
use crate::text::push_decimal_int;
use crate::time::{to_rfc3339, utc_now, DateTime};
#[allow(unused_imports)]
use crate::views::{view_opt, views};
use vstd::prelude::*;

verus! {

/// What a movement does to an account.
#[derive(Clone, Copy, Debug, PartialEq, Eq, Structural)]
enum Kind {
    Stake,
    Reward,
    Slash,
    Withdraw,
}

spec fn movement_of(kind: Kind) -> Movement {
    match kind {
        Kind::Stake => Movement::Stake,
        Kind::Reward => Movement::Reward,
        Kind::Slash => Movement::Slash,
        Kind::Withdraw => Movement::Withdraw,
    }
}

/// The accounts, movements, commitments and disputes.
#[derive(Debug, PartialEq, Eq)]
pub struct StakingState {
    providers: OrderedMap<String, ProviderRecord>,
    events: Vec<(String, EventRecord)>,
    commits: OrderedMap<(String, String), CommitRecord>,
    disputes: OrderedMap<i64, DisputeRecord>,
    next_dispute: i64,
}

impl View for StakingState {
    type V = StakingView;

    closed spec fn view(&self) -> StakingView {
        StakingView {
            providers: self.providers@,
            events: views(self.events@),
            commits: self.commits@,
            disputes: self.disputes@,
            next_dispute: self.next_dispute as int,
        }
    }
}

/// The state with the given rows. Of several rows with one key the last counts.
/// The next dispute gets the given number, or one above that of every row where
/// this is larger.
pub open spec fn restored(
    providers: Seq<AccountView>,
    events: Seq<(Seq<char>, EventView)>,
    commits: Seq<CommitView>,
    disputes: Seq<DisputeView>,
    next_dispute: int,
) -> StakingView {
    StakingView {
        providers: account_rows(providers),
        events,
        commits: commit_rows(commits),
        disputes: dispute_rows(disputes),
        next_dispute: next_number(disputes, next_dispute),
    }
}

/// Accounts by provider.
pub open spec fn account_rows(rows: Seq<AccountView>) -> Seq<(Seq<char>, AccountView)>
    decreases rows.len(),
{
    if rows.len() == 0 {
        Seq::empty()
    } else {
        upsert(account_rows(rows.drop_last()), rows.last().provider_id, rows.last())
    }
}

/// Commitments by task and provider.
pub open spec fn commit_rows(rows: Seq<CommitView>) -> Seq<((Seq<char>, Seq<char>), CommitView)>
    decreases rows.len(),
{
    if rows.len() == 0 {
        Seq::empty()
    } else {
        upsert(
            commit_rows(rows.drop_last()),
            (rows.last().task_id, rows.last().provider_id),
            rows.last(),
        )
    }
}

/// Disputes by number.
pub open spec fn dispute_rows(rows: Seq<DisputeView>) -> Seq<(i64, DisputeView)>
    decreases rows.len(),
{
    if rows.len() == 0 {
        Seq::empty()
    } else {
        upsert(dispute_rows(rows.drop_last()), rows.last().id, rows.last())
    }
}

/// The largest of one, the given number, and one above the number of every row,
/// as far as this can be held.
pub open spec fn next_number(rows: Seq<DisputeView>, given: int) -> int
    decreases rows.len(),
{
    if rows.len() == 0 {
        if given < 1 {
            1
        } else {
            given
        }
    } else {
        let before = next_number(rows.drop_last(), given);
        let id = rows.last().id;
        if id < before {
            before
        } else if id < i64::MAX {
            id + 1
        } else {
            id as int
        }
    }
}

/// The balances after a movement.
fn apply(account: &ProviderRecord, kind: Kind, amount: Decimal) -> (after: Result<
    ProviderRecord,
    StakingError,
>)
    requires
        amount.micros > 0,
    ensures
        match after {
            Ok(changed) => moved(account@, movement_of(kind), amount) == Ok::<_, StakingError>(
                changed@,
            ),
            Err(error) => moved(account@, movement_of(kind), amount) == Err::<AccountView, _>(
                error,
            ),
        },
{
    let mut after = account.clone();
    match kind {
        Kind::Stake => match account.stake.micros.checked_add(amount.micros) {
            Some(micros) => {
                after.stake = Decimal { micros };
            },
            None => {
                return Err(StakingError::OutOfRange);
            },
        },
        Kind::Reward => match account.rewards.micros.checked_add(amount.micros) {
            Some(micros) => {
                after.rewards = Decimal { micros };
            },
            None => {
                return Err(StakingError::OutOfRange);
            },
        },
        Kind::Withdraw => {
            if account.rewards.micros < amount.micros {
                return Err(StakingError::InsufficientRewards);
            }
            after.rewards = Decimal { micros: account.rewards.micros - amount.micros };
        },
        Kind::Slash => {
            let funds: i128 = account.stake.micros as i128 + account.rewards.micros as i128;
            if funds < amount.micros as i128 {
                return Err(StakingError::InsufficientFunds);
            }
            match account.slashed.micros.checked_add(amount.micros) {
                Some(micros) => {
                    after.slashed = Decimal { micros };
                },
                None => {
                    return Err(StakingError::OutOfRange);
                },
            }
            if account.stake.micros >= amount.micros {
                after.stake = Decimal { micros: account.stake.micros - amount.micros };
            } else {
                let rest: i128 = funds - amount.micros as i128;
                after.stake = Decimal { micros: 0 };
                after.rewards = Decimal { micros: rest as i64 };
            }
        },
    }
    Ok(after)
}

impl StakingState {
    /// The state is consistent at any time.
    #[verifier::type_invariant]
    pub open spec fn wf(&self) -> bool {
        is_consistent(self@)
    }

    /// A state without accounts.
    pub fn new() -> (state: Self)
        ensures
            is_consistent(state@),
            state@ == empty_state(),
    {
        let state = StakingState {
            providers: OrderedMap::new(),
            events: Vec::new(),
            commits: OrderedMap::new(),
            disputes: OrderedMap::new(),
            next_dispute: 1,
        };
        assert(state@.events =~= empty_state().events);
        state
    }

    /// The state with the given rows. The next dispute gets the given number, or
    /// one above that of every row where this is larger.
    pub fn restore(
        providers: Vec<ProviderRecord>,
        events: Vec<(String, EventRecord)>,
        commits: Vec<CommitRecord>,
        disputes: Vec<DisputeRecord>,
        next_dispute: i64,
    ) -> (state: Self)
        ensures
            is_consistent(state@),
            state@ == restored(
                views(providers@),
                views(events@),
                views(commits@),
                views(disputes@),
                next_dispute as int,
            ),
    {
        let ghost p = views(providers@);
        let mut accounts: OrderedMap<String, ProviderRecord> = OrderedMap::new();
        let mut i: usize = 0;
        while i < providers.len()
            invariant
                i <= providers.len(),
                p == views(providers@),
                accounts@ == account_rows(p.take(i as int)),
            decreases providers.len() - i,
        {
            assert(p.take(i + 1).drop_last() =~= p.take(i as int));
            let row = &providers[i];
            accounts.insert(row.provider_id.clone(), row.clone());
            i += 1;
        }
        assert(p.take(i as int) =~= p);
        let ghost c = views(commits@);
        let mut promises: OrderedMap<(String, String), CommitRecord> = OrderedMap::new();
        let mut j: usize = 0;
        while j < commits.len()
            invariant
                j <= commits.len(),
                c == views(commits@),
                promises@ == commit_rows(c.take(j as int)),
            decreases commits.len() - j,
        {
            assert(c.take(j + 1).drop_last() =~= c.take(j as int));
            let row = &commits[j];
            promises.insert((row.task_id.clone(), row.provider_id.clone()), row.clone());
            j += 1;
        }
        assert(c.take(j as int) =~= c);
        let ghost d = views(disputes@);
        let mut cases: OrderedMap<i64, DisputeRecord> = OrderedMap::new();
        let mut next: i64 = if next_dispute < 1 {
            1
        } else {
            next_dispute
        };
        let mut k: usize = 0;
        while k < disputes.len()
            invariant
                k <= disputes.len(),
                d == views(disputes@),
                cases@ == dispute_rows(d.take(k as int)),
                1 <= next,
                next == next_number(d.take(k as int), next_dispute as int),
                forall|i: int|
                    0 <= i < cases@.len() ==> (#[trigger] cases@[i]).0 < next || next == i64::MAX,
            decreases disputes.len() - k,
        {
            assert(d.take(k + 1).drop_last() =~= d.take(k as int));
            let row = &disputes[k];
            assert(d.take(k + 1).last() == row@);
            cases.insert(row.id, row.clone());
            if row.id == i64::MAX {
                next = i64::MAX;
            } else if row.id >= next {
                next = row.id + 1;
            }
            k += 1;
        }
        assert(d.take(k as int) =~= d);
        proof {
            use_type_invariant(&accounts);
            use_type_invariant(&promises);
            use_type_invariant(&cases);
        }
        StakingState {
            providers: accounts,
            events,
            commits: promises,
            disputes: cases,
            next_dispute: next,
        }
    }

    /// The accounts.
    pub fn providers(&self) -> (rows: &OrderedMap<String, ProviderRecord>)
        ensures
            is_consistent(self@),
            rows@ == self@.providers,
    {
        proof {
            use_type_invariant(&*self);
        }
        &self.providers
    }

    /// The movements with their accounts, the oldest first.
    pub fn events(&self) -> (rows: &Vec<(String, EventRecord)>)
        ensures
            is_consistent(self@),
            views(rows@) == self@.events,
    {
        proof {
            use_type_invariant(&*self);
        }
        &self.events
    }

    /// The commitments by task and provider.
    pub fn commits(&self) -> (rows: &OrderedMap<(String, String), CommitRecord>)
        ensures
            is_consistent(self@),
            rows@ == self@.commits,
    {
        proof {
            use_type_invariant(&*self);
        }
        &self.commits
    }

    /// The disputes by number.
    pub fn disputes(&self) -> (rows: &OrderedMap<i64, DisputeRecord>)
        ensures
            is_consistent(self@),
            rows@ == self@.disputes,
    {
        proof {
            use_type_invariant(&*self);
        }
        &self.disputes
    }

    /// Stores an account.
    fn put_account(&mut self, key: String, account: ProviderRecord)
        ensures
            final(self)@ == (StakingView {
                providers: upsert(old(self)@.providers, key@, account@),
                ..old(self)@
            }),
    {
        proof {
            use_type_invariant(&*self);
            lemma_upsert_lookup(self@.providers, key@, account@, key@);
        }
        let mut providers: OrderedMap<String, ProviderRecord> = OrderedMap::new();
        std::mem::swap(&mut providers, &mut self.providers);
        providers.insert(key, account);
        self.providers = providers;
    }

    /// Stores a commitment.
    fn put_commit(&mut self, key: (String, String), record: CommitRecord)
        ensures
            final(self)@ == (StakingView {
                commits: upsert(old(self)@.commits, key@, record@),
                ..old(self)@
            }),
    {
        proof {
            use_type_invariant(&*self);
            lemma_upsert_lookup(self@.commits, key@, record@, key@);
        }
        let mut commits: OrderedMap<(String, String), CommitRecord> = OrderedMap::new();
        std::mem::swap(&mut commits, &mut self.commits);
        commits.insert(key, record);
        self.commits = commits;
    }

    /// Stores a dispute whose number was given out.
    fn put_dispute(&mut self, id: i64, record: DisputeRecord)
        requires
            id < old(self)@.next_dispute || old(self)@.next_dispute == i64::MAX,
        ensures
            final(self)@ == (StakingView {
                disputes: upsert(old(self)@.disputes, id, record@),
                ..old(self)@
            }),
    {
        proof {
            use_type_invariant(&*self);
            lemma_upsert_lookup(self@.disputes, id, record@, id);
        }
        let mut disputes: OrderedMap<i64, DisputeRecord> = OrderedMap::new();
        std::mem::swap(&mut disputes, &mut self.disputes);
        disputes.insert(id, record);
        self.disputes = disputes;
    }

    /// Writes a movement down.
    fn log_event(
        &mut self,
        pid: &str,
        event_type: &str,
        amount: Decimal,
        memo: Option<String>,
        now: DateTime,
    )
        ensures
            final(self)@ == with_event(
                old(self)@,
                pid@,
                event_type@,
                amount,
                view_opt(memo),
                now,
            ),
    {
        let event = EventRecord {
            event_type: event_type.to_string(),
            amount,
            memo,
            ts: to_rfc3339(&now),
        };
        let entry = (pid.to_string(), event);
        let ghost before = views(self.events@);
        let ghost added = entry@;
        proof {
            use_type_invariant(&*self);
        }
        let mut events: Vec<(String, EventRecord)> = Vec::new();
        std::mem::swap(&mut events, &mut self.events);
        events.push(entry);
        assert(views(events@) =~= before.push(added));
        self.events = events;
    }

    /// Opens an account at the current time, or gives an open one a new stake.
    pub fn register(&mut self, pid: &str, stake: Decimal) -> (account: ProviderRecord)
        ensures
            is_consistent(final(self)@),
            exists|now: DateTime|
                (final(self)@, account@) == #[trigger] registered(old(self)@, pid@, stake, now),
    {
        let now = utc_now();
        self.register_at(pid, stake, now)
    }

    /// Opens an account at the time `now`, or gives an open one a new stake.
    pub fn register_at(&mut self, pid: &str, stake: Decimal, now: DateTime) -> (account:
        ProviderRecord)
        ensures
            is_consistent(final(self)@),
            (final(self)@, account@) == registered(old(self)@, pid@, stake, now),
    {
        let key = pid.to_string();
        let zero = Decimal { micros: 0 };
        let (rewards, slashed) = match self.providers.get(&key) {
            Some(known) => (known.rewards, known.slashed),
            None => (zero, zero),
        };
        let account = ProviderRecord {
            provider_id: pid.to_string(),
            stake,
            rewards,
            slashed,
            updated_at: to_rfc3339(&now),
        };
        self.put_account(key, account.clone());
        self.log_event(pid, "register", stake, None, now);
        proof {
            use_type_invariant(&*self);
        }
        account
    }

    /// The account of a provider.
    pub fn get_provider(&self, pid: &str) -> (account: Option<ProviderRecord>)
        ensures
            is_consistent(self@),
            view_opt(account) == lookup(self@.providers, pid@),
    {
        proof {
            use_type_invariant(&*self);
        }
        let key = pid.to_string();
        match self.providers.get(&key) {
            Some(account) => Some(account.clone()),
            None => None,
        }
    }

    /// Carries a movement out.
    fn transfer(
        &mut self,
        pid: &str,
        kind: Kind,
        amount: Decimal,
        memo: Option<String>,
        now: DateTime,
    ) -> (outcome: Result<ProviderRecord, StakingError>)
        ensures
            is_consistent(final(self)@),
            match outcome {
                Ok(account) => transferred(
                    old(self)@,
                    pid@,
                    movement_of(kind),
                    amount,
                    view_opt(memo),
                    now,
                ) == Ok::<_, StakingError>((final(self)@, account@)),
                Err(error) => transferred(
                    old(self)@,
                    pid@,
                    movement_of(kind),
                    amount,
                    view_opt(memo),
                    now,
                ) == Err::<(StakingView, AccountView), _>(error) && final(self)@ == old(self)@,
            },
    {
        proof {
            use_type_invariant(&*self);
        }
        if amount.micros <= 0 {
            return Err(StakingError::AmountNotPositive);
        }
        let key = pid.to_string();
        let outcome = match self.providers.get(&key) {
            Some(account) => apply(account, kind, amount),
            None => Err(StakingError::ProviderNotRegistered),
        };
        match outcome {
            Err(error) => Err(error),
            Ok(answer) => {
                let mut stored = answer.clone();
                stored.updated_at = to_rfc3339(&now);
                self.put_account(key, stored);
                let name = match kind {
                    Kind::Stake => "stake",
                    Kind::Reward => "reward",
                    Kind::Slash => "slash",
                    Kind::Withdraw => "withdraw",
                };
                self.log_event(pid, name, amount, memo, now);
                proof {
                    use_type_invariant(&*self);
                }
                Ok(answer)
            },
        }
    }

    /// Adds to a stake at the current time.
    pub fn stake(&mut self, pid: &str, amount: Decimal) -> (outcome: Result<
        ProviderRecord,
        StakingError,
    >)
        ensures
            is_consistent(final(self)@),
            exists|now: DateTime|
                is_transfer(
                    #[trigger] transferred(old(self)@, pid@, Movement::Stake, amount, None, now),
                    old(self)@,
                    final(self)@,
                    outcome,
                ),
    {
        let now = utc_now();
        self.stake_at(pid, amount, now)
    }

    /// Adds to a stake at the time `now`.
    pub fn stake_at(&mut self, pid: &str, amount: Decimal, now: DateTime) -> (outcome: Result<
        ProviderRecord,
        StakingError,
    >)
        ensures
            is_consistent(final(self)@),
            is_transfer(
                transferred(old(self)@, pid@, Movement::Stake, amount, None, now),
                old(self)@,
                final(self)@,
                outcome,
            ),
    {
        self.transfer(pid, Kind::Stake, amount, None, now)
    }

    /// Rewards a provider at the current time.
    pub fn reward(&mut self, pid: &str, amount: Decimal) -> (outcome: Result<
        ProviderRecord,
        StakingError,
    >)
        ensures
            is_consistent(final(self)@),
            exists|now: DateTime|
                is_transfer(
                    #[trigger] transferred(old(self)@, pid@, Movement::Reward, amount, None, now),
                    old(self)@,
                    final(self)@,
                    outcome,
                ),
    {
        let now = utc_now();
        self.reward_at(pid, amount, now)
    }

    /// Rewards a provider at the time `now`.
    pub fn reward_at(&mut self, pid: &str, amount: Decimal, now: DateTime) -> (outcome: Result<
        ProviderRecord,
        StakingError,
    >)
        ensures
            is_consistent(final(self)@),
            is_transfer(
                transferred(old(self)@, pid@, Movement::Reward, amount, None, now),
                old(self)@,
                final(self)@,
                outcome,
            ),
    {
        self.transfer(pid, Kind::Reward, amount, None, now)
    }

    /// Slashes a provider at the current time.
    pub fn slash(&mut self, pid: &str, amount: Decimal, reason: Option<String>) -> (outcome: Result<
        ProviderRecord,
        StakingError,
    >)
        ensures
            is_consistent(final(self)@),
            exists|now: DateTime|
                is_transfer(
                    #[trigger] transferred(
                        old(self)@,
                        pid@,
                        Movement::Slash,
                        amount,
                        view_opt(reason),
                        now,
                    ),
                    old(self)@,
                    final(self)@,
                    outcome,
                ),
    {
        let now = utc_now();
        self.slash_at(pid, amount, reason, now)
    }

    /// Slashes a provider at the time `now`.
    pub fn slash_at(
        &mut self,
        pid: &str,
        amount: Decimal,
        reason: Option<String>,
        now: DateTime,
    ) -> (outcome: Result<ProviderRecord, StakingError>)
        ensures
            is_consistent(final(self)@),
            is_transfer(
                transferred(old(self)@, pid@, Movement::Slash, amount, view_opt(reason), now),
                old(self)@,
                final(self)@,
                outcome,
            ),
    {
        self.transfer(pid, Kind::Slash, amount, reason, now)
    }

    /// Pays rewards out at the current time.
    pub fn withdraw(&mut self, pid: &str, amount: Decimal) -> (outcome: Result<
        ProviderRecord,
        StakingError,
    >)
        ensures
            is_consistent(final(self)@),
            exists|now: DateTime|
                is_transfer(
                    #[trigger] transferred(old(self)@, pid@, Movement::Withdraw, amount, None, now),
                    old(self)@,
                    final(self)@,
                    outcome,
                ),
    {
        let now = utc_now();
        self.withdraw_at(pid, amount, now)
    }

    /// Pays rewards out at the time `now`.
    pub fn withdraw_at(&mut self, pid: &str, amount: Decimal, now: DateTime) -> (outcome: Result<
        ProviderRecord,
        StakingError,
    >)
        ensures
            is_consistent(final(self)@),
            is_transfer(
                transferred(old(self)@, pid@, Movement::Withdraw, amount, None, now),
                old(self)@,
                final(self)@,
                outcome,
            ),
    {
        self.transfer(pid, Kind::Withdraw, amount, None, now)
    }

    /// The movements on an account, the newest first and at most a hundred.
    pub fn get_events(&self, pid: &str) -> (found: Vec<EventRecord>)
        ensures
            is_consistent(self@),
            views(found@) == recent_events(self@, pid@),
    {
        proof {
            use_type_invariant(&*self);
        }
        let wanted = pid.to_string();
        let ghost all = views(self.events@);
        let ghost whole = history(all, pid@);
        let mut found: Vec<EventRecord> = Vec::new();
        let mut i: usize = self.events.len();
        assert(all.take(i as int) =~= all);
        assert(views(found@) + history(all, pid@) =~= whole);
        while i > 0 && found.len() < 100
            invariant
                i <= self.events.len(),
                all == views(self.events@),
                wanted@ == pid@,
                found.len() <= 100,
                views(found@) + history(all.take(i as int), pid@) == whole,
            decreases i,
        {
            i -= 1;
            assert(all.take(i + 1).drop_last() =~= all.take(i as int));
            let entry = &self.events[i];
            assert(all.take(i + 1).last() == entry@);
            if entry.0 == wanted {
                let copy = entry.1.clone();
                let ghost before = views(found@);
                let ghost added = copy@;
                found.push(copy);
                assert(views(found@) =~= before.push(added));
                assert(views(found@) + history(all.take(i as int), pid@) =~= before + (seq![added]
                    + history(all.take(i as int), pid@)));
            }
        }
        proof {
            if i == 0 {
                assert(all.take(0) =~= Seq::empty());
                assert(views(found@) =~= whole);
                if whole.len() > 100 {
                    assert(whole.take(100) =~= whole);
                }
            } else {
                assert(whole.take(100) =~= views(found@));
                if whole.len() <= 100 {
                    assert(views(found@) =~= whole);
                }
            }
        }
        found
    }

    /// Takes a commitment at the current time.
    pub fn commit(&mut self, task_id: &str, pid: &str, hash: &str) -> (outcome: Result<
        (),
        StakingError,
    >)
        ensures
            is_consistent(final(self)@),
            exists|now: DateTime|
                is_commit(
                    #[trigger] committed(old(self)@, task_id@, pid@, hash@, now),
                    old(self)@,
                    final(self)@,
                    outcome,
                ),
    {
        let now = utc_now();
        self.commit_at(task_id, pid, hash, now)
    }

    /// Takes a commitment at the time `now`.
    pub fn commit_at(&mut self, task_id: &str, pid: &str, hash: &str, now: DateTime) -> (outcome:
        Result<(), StakingError>)
        ensures
            is_consistent(final(self)@),
            is_commit(
                committed(old(self)@, task_id@, pid@, hash@, now),
                old(self)@,
                final(self)@,
                outcome,
            ),
    {
        proof {
            use_type_invariant(&*self);
        }
        let provider = pid.to_string();
        if !self.providers.contains_key(&provider) {
            return Err(StakingError::CommitterNotRegistered);
        }
        let key = (task_id.to_string(), provider);
        if self.commits.contains_key(&key) {
            return Err(StakingError::AlreadyCommitted);
        }
        let record = CommitRecord {
            task_id: task_id.to_string(),
            provider_id: pid.to_string(),
            commitment_hash: hash.to_string(),
            revealed_result: None,
            salt: None,
            status: "committed".to_string(),
            created_at: to_rfc3339(&now),
            updated_at: to_rfc3339(&now),
        };
        self.put_commit(key, record);
        proof {
            use_type_invariant(&*self);
        }
        Ok(())
    }

    /// Takes a revealed result at the current time.
    pub fn reveal_result(&mut self, task_id: &str, pid: &str, result: &str, salt: &str) -> (outcome: Result<
        bool,
        StakingError,
    >)
        ensures
            is_consistent(final(self)@),
            exists|now: DateTime|
                is_reveal(
                    #[trigger] revealed(old(self)@, task_id@, pid@, result@, salt@, now),
                    old(self)@,
                    final(self)@,
                    outcome,
                ),
    {
        let now = utc_now();
        self.reveal_result_at(task_id, pid, result, salt, now)
    }

    /// Takes a revealed result at the time `now`.
    pub fn reveal_result_at(
        &mut self,
        task_id: &str,
        pid: &str,
        result: &str,
        salt: &str,
        now: DateTime,
    ) -> (outcome: Result<bool, StakingError>)
        ensures
            is_consistent(final(self)@),
            is_reveal(
                revealed(old(self)@, task_id@, pid@, result@, salt@, now),
                old(self)@,
                final(self)@,
                outcome,
            ),
    {
        let mut text = result.to_string();
        text.append(salt);
        let computed = fingerprint(text.as_str().as_bytes());
        self.accept_result_at(task_id, pid, result, salt, computed.as_str(), now)
    }

    /// Takes a revealed result whose fingerprint is known, at the time `now`.
    pub fn accept_result_at(
        &mut self,
        task_id: &str,
        pid: &str,
        result: &str,
        salt: &str,
        hash: &str,
        now: DateTime,
    ) -> (outcome: Result<bool, StakingError>)
        ensures
            is_consistent(final(self)@),
            is_reveal(
                accepted(old(self)@, task_id@, pid@, result@, salt@, hash@, now),
                old(self)@,
                final(self)@,
                outcome,
            ),
    {
        proof {
            use_type_invariant(&*self);
        }
        let key = (task_id.to_string(), pid.to_string());
        let mut record = match self.commits.get(&key) {
            Some(known) => known.clone(),
            None => {
                return Err(StakingError::CommitmentNotFound);
            },
        };
        if record.commitment_hash != hash.to_string() {
            return Ok(false);
        }
        record.revealed_result = Some(result.to_string());
        record.salt = Some(salt.to_string());
        record.status = "revealed".to_string();
        record.updated_at = to_rfc3339(&now);
        self.put_commit(key, record);
        proof {
            use_type_invariant(&*self);
        }
        Ok(true)
    }

    /// Takes a challenge at the current time.
    pub fn challenge(
        &mut self,
        task_id: &str,
        accuser: &str,
        defendant: &str,
        evidence: Option<String>,
    ) -> (outcome: Result<i64, StakingError>)
        ensures
            is_consistent(final(self)@),
            exists|now: DateTime|
                is_challenge(
                    #[trigger] challenged(
                        old(self)@,
                        task_id@,
                        accuser@,
                        defendant@,
                        view_opt(evidence),
                        now,
                    ),
                    old(self)@,
                    final(self)@,
                    outcome,
                ),
    {
        let now = utc_now();
        self.challenge_at(task_id, accuser, defendant, evidence, now)
    }

    /// Takes a challenge at the time `now`.
    pub fn challenge_at(
        &mut self,
        task_id: &str,
        accuser: &str,
        defendant: &str,
        evidence: Option<String>,
        now: DateTime,
    ) -> (outcome: Result<i64, StakingError>)
        ensures
            is_consistent(final(self)@),
            is_challenge(
                challenged(
                    old(self)@,
                    task_id@,
                    accuser@,
                    defendant@,
                    view_opt(evidence),
                    now,
                ),
                old(self)@,
                final(self)@,
                outcome,
            ),
    {
        proof {
            use_type_invariant(&*self);
        }
        let key = (task_id.to_string(), defendant.to_string());
        let mut record = match self.commits.get(&key) {
            Some(known) => known.clone(),
            None => {
                return Err(StakingError::NoCommitment);
            },
        };
        let id: i64 = self.next_dispute;
        if id == i64::MAX {
            return Err(StakingError::TooManyDisputes);
        }
        let dispute = DisputeRecord {
            id,
            task_id: task_id.to_string(),
            accuser_id: accuser.to_string(),
            defendant_id: defendant.to_string(),
            evidence,
            status: "pending".to_string(),
            created_at: to_rfc3339(&now),
            prior_status: record.status.clone(),
        };
        self.next_dispute = id + 1;
        self.put_dispute(id, dispute);
        record.status = "disputed".to_string();
        record.updated_at = to_rfc3339(&now);
        self.put_commit(key, record);
        proof {
            use_type_invariant(&*self);
        }
        Ok(id)
    }

    /// Takes the mark off the commitment of a dispute.
    fn clear(&mut self, dispute: &DisputeRecord, now: DateTime)
        ensures
            is_consistent(final(self)@),
            final(self)@ == cleared(old(self)@, dispute@, now),
    {
        proof {
            use_type_invariant(&*self);
        }
        let key = (dispute.task_id.clone(), dispute.defendant_id.clone());
        let mut record = match self.commits.get(&key) {
            Some(known) => known.clone(),
            None => {
                return ;
            },
        };
        if record.status == "disputed".to_string() {
            record.status = dispute.prior_status.clone();
            record.updated_at = to_rfc3339(&now);
            self.put_commit(key, record);
            proof {
                use_type_invariant(&*self);
            }
        }
    }

    /// Settles a dispute at the current time.
    pub fn resolve_dispute(&mut self, dispute_id: i64, guilty: bool) -> (outcome: Result<
        (),
        StakingError,
    >)
        ensures
            is_consistent(final(self)@),
            exists|now: DateTime|
                (final(self)@, outcome) == #[trigger] resolved(old(self)@, dispute_id, guilty, now),
    {
        let now = utc_now();
        self.resolve_dispute_at(dispute_id, guilty, now)
    }

    /// Settles a dispute at the time `now`.
    pub fn resolve_dispute_at(&mut self, dispute_id: i64, guilty: bool, now: DateTime) -> (outcome:
        Result<(), StakingError>)
        ensures
            is_consistent(final(self)@),
            (final(self)@, outcome) == resolved(old(self)@, dispute_id, guilty, now),
    {
        proof {
            use_type_invariant(&*self);
        }
        let dispute = match self.disputes.get(&dispute_id) {
            Some(known) => known.clone(),
            None => {
                return Err(StakingError::DisputeNotFound);
            },
        };
        let mut closed = dispute.clone();
        closed.id = dispute_id;
        closed.status = if guilty {
            "resolved_guilty".to_string()
        } else {
            "resolved_innocent".to_string()
        };
        proof {
            let at = find(self@.disputes, dispute_id).unwrap();
            assert(self@.disputes[at].0 == dispute_id);
        }
        self.put_dispute(dispute_id, closed);
        if !guilty {
            self.clear(&dispute, now);
            return Ok(());
        }
        let mut memo = "Dispute #".to_string();
        push_decimal_int(&mut memo, dispute_id as i128);
        let penalty = Decimal { micros: 100_000_000 };
        match self.transfer(dispute.defendant_id.as_str(), Kind::Slash, penalty, Some(memo), now) {
            Err(error) => Err(error),
            Ok(_) => {
                let reward = Decimal { micros: 50_000_000 };
                match self.transfer(dispute.accuser_id.as_str(), Kind::Reward, reward, None, now) {
                    Err(error) => Err(error),
                    Ok(_) => Ok(()),
                }
            },
        }
    }
}

/// Whether a movement ended as it should.
pub open spec fn is_transfer(
    expected: Result<(StakingView, AccountView), StakingError>,
    before: StakingView,
    after: StakingView,
    outcome: Result<ProviderRecord, StakingError>,
) -> bool {
    match outcome {
        Ok(account) => expected == Ok::<_, StakingError>((after, account@)),
        Err(error) => expected == Err::<(StakingView, AccountView), _>(error) && after == before,
    }
}

/// Whether a commitment was taken as it should.
pub open spec fn is_commit(
    expected: Result<StakingView, StakingError>,
    before: StakingView,
    after: StakingView,
    outcome: Result<(), StakingError>,
) -> bool {
    match outcome {
        Ok(_) => expected == Ok::<_, StakingError>(after),
        Err(error) => expected == Err::<StakingView, _>(error) && after == before,
    }
}

/// Whether a revealed result was taken as it should.
pub open spec fn is_reveal(
    expected: Result<(StakingView, bool), StakingError>,
    before: StakingView,
    after: StakingView,
    outcome: Result<bool, StakingError>,
) -> bool {
    match outcome {
        Ok(valid) => expected == Ok::<_, StakingError>((after, valid)),
        Err(error) => expected == Err::<(StakingView, bool), _>(error) && after == before,
    }
}

/// Whether a challenge was taken as it should.
pub open spec fn is_challenge(
    expected: Result<(StakingView, int), StakingError>,
    before: StakingView,
    after: StakingView,
    outcome: Result<i64, StakingError>,
) -> bool {
    match outcome {
        Ok(id) => expected == Ok::<_, StakingError>((after, id as int)),
        Err(error) => expected == Err::<(StakingView, int), _>(error) && after == before,
    }
}

// ---------------------------------------------------------------- laws

proof fn lemma_rows_distinct(
    accounts: Seq<AccountView>,
    commits: Seq<CommitView>,
    disputes: Seq<DisputeView>,
)
    ensures
        keys_distinct(account_rows(accounts)),
        keys_distinct(commit_rows(commits)),
        keys_distinct(dispute_rows(disputes)),
    decreases accounts.len() + commits.len() + disputes.len(),
{
    if accounts.len() > 0 {
        let last = accounts.last();
        lemma_rows_distinct(accounts.drop_last(), commits, disputes);
        lemma_upsert_lookup(
            account_rows(accounts.drop_last()),
            last.provider_id,
            last,
            last.provider_id,
        );
    } else if commits.len() > 0 {
        let last = commits.last();
        lemma_rows_distinct(accounts, commits.drop_last(), disputes);
        let key = (last.task_id, last.provider_id);
        lemma_upsert_lookup(commit_rows(commits.drop_last()), key, last, key);
    } else if disputes.len() > 0 {
        let last = disputes.last();
        lemma_rows_distinct(accounts, commits, disputes.drop_last());
        lemma_upsert_lookup(dispute_rows(disputes.drop_last()), last.id, last, last.id);
    }
    if commits.len() > 0 && accounts.len() > 0 {
        lemma_rows_distinct(Seq::empty(), commits, disputes);
    }
    if disputes.len() > 0 && (accounts.len() > 0 || commits.len() > 0) {
        lemma_rows_distinct(Seq::empty(), Seq::empty(), disputes);
    }
}

/// Restored books hold every account: of several rows for one provider the last.
/// Nobody else has an account.
pub proof fn law_restored_accounts(rows: Seq<AccountView>, i: int, other: Seq<char>)
    requires
        0 <= i < rows.len(),
        forall|j: int|
            i < j < rows.len() ==> (#[trigger] rows[j]).provider_id != rows[i].provider_id,
        forall|j: int| 0 <= j < rows.len() ==> (#[trigger] rows[j]).provider_id != other,
    ensures
        lookup(
            restored(rows, Seq::empty(), Seq::empty(), Seq::empty(), 1).providers,
            rows[i].provider_id,
        ) == Some(rows[i]),
        lookup(
            restored(rows, Seq::empty(), Seq::empty(), Seq::empty(), 1).providers,
            other,
        ) is None,
    decreases rows.len(),
{
    let front = rows.drop_last();
    let last = rows.last();
    lemma_rows_distinct(front, Seq::empty(), Seq::empty());
    lemma_upsert_lookup(account_rows(front), last.provider_id, last, rows[i].provider_id);
    lemma_upsert_lookup(account_rows(front), last.provider_id, last, other);
    assert forall|j: int| 0 <= j < front.len() implies front[j] == rows[j] by {}
    assert forall|j: int| 0 <= j < front.len() implies (#[trigger] front[j]).provider_id
        != other by {
        assert(rows[j].provider_id != other);
    }
    assert(rows[rows.len() - 1].provider_id != other);
    if i < rows.len() - 1 {
        assert(rows[rows.len() - 1].provider_id != rows[i].provider_id);
        assert forall|j: int| i < j < front.len() implies (#[trigger] front[j]).provider_id
            != front[i].provider_id by {
            assert(rows[j].provider_id != rows[i].provider_id);
        }
        law_restored_accounts(front, i, other);
    } else if front.len() > 0 {
        lemma_no_account(front, other);
    }
}

proof fn lemma_no_account(rows: Seq<AccountView>, other: Seq<char>)
    requires
        forall|j: int| 0 <= j < rows.len() ==> (#[trigger] rows[j]).provider_id != other,
    ensures
        lookup(account_rows(rows), other) is None,
    decreases rows.len(),
{
    if rows.len() > 0 {
        let front = rows.drop_last();
        assert forall|j: int| 0 <= j < front.len() implies (#[trigger] front[j]).provider_id
            != other by {
            assert(rows[j].provider_id != other);
        }
        lemma_no_account(front, other);
        lemma_rows_distinct(front, Seq::empty(), Seq::empty());
        assert(rows[rows.len() - 1].provider_id != other);
        lemma_upsert_lookup(account_rows(front), rows.last().provider_id, rows.last(), other);
    }
}

/// Restored books hold every commitment: of several rows for one task and provider
/// the last.
pub proof fn law_restored_commitments(rows: Seq<CommitView>, i: int)
    requires
        0 <= i < rows.len(),
        forall|j: int|
            i < j < rows.len() ==> (#[trigger] rows[j]).task_id != rows[i].task_id
                || rows[j].provider_id != rows[i].provider_id,
    ensures
        lookup(
            restored(Seq::empty(), Seq::empty(), rows, Seq::empty(), 1).commits,
            (rows[i].task_id, rows[i].provider_id),
        ) == Some(rows[i]),
        restored(Seq::empty(), Seq::empty(), rows, Seq::empty(), 1).commits.len() <= rows.len(),
    decreases rows.len(),
{
    let front = rows.drop_last();
    let last = rows.last();
    let key = (rows[i].task_id, rows[i].provider_id);
    lemma_rows_distinct(Seq::empty(), front, Seq::empty());
    lemma_upsert_lookup(commit_rows(front), (last.task_id, last.provider_id), last, key);
    lemma_fewer_rows(rows, Seq::empty());
    if i < rows.len() - 1 {
        assert(rows[rows.len() - 1].task_id != rows[i].task_id || rows[rows.len()
            - 1].provider_id != rows[i].provider_id);
        assert forall|j: int| i < j < front.len() implies (#[trigger] front[j]).task_id
            != front[i].task_id || front[j].provider_id != front[i].provider_id by {
            assert(front[j] == rows[j]);
        }
        law_restored_commitments(front, i);
    }
}

/// Restored books hold every dispute: of several rows with one number the last.
pub proof fn law_restored_disputes(rows: Seq<DisputeView>, i: int)
    requires
        0 <= i < rows.len(),
        forall|j: int| i < j < rows.len() ==> (#[trigger] rows[j]).id != rows[i].id,
    ensures
        lookup(
            restored(Seq::empty(), Seq::empty(), Seq::empty(), rows, 1).disputes,
            rows[i].id,
        ) == Some(rows[i]),
        restored(Seq::empty(), Seq::empty(), Seq::empty(), rows, 1).disputes.len() <= rows.len(),
    decreases rows.len(),
{
    let front = rows.drop_last();
    let last = rows.last();
    lemma_rows_distinct(Seq::empty(), Seq::empty(), front);
    lemma_upsert_lookup(dispute_rows(front), last.id, last, rows[i].id);
    lemma_fewer_rows(Seq::empty(), rows);
    if i < rows.len() - 1 {
        assert(rows[rows.len() - 1].id != rows[i].id);
        assert forall|j: int| i < j < front.len() implies (#[trigger] front[j]).id
            != front[i].id by {
            assert(front[j] == rows[j]);
        }
        law_restored_disputes(front, i);
    }
}

proof fn lemma_fewer_rows(commits: Seq<CommitView>, disputes: Seq<DisputeView>)
    ensures
        commit_rows(commits).len() <= commits.len(),
        dispute_rows(disputes).len() <= disputes.len(),
    decreases commits.len() + disputes.len(),
{
    if commits.len() > 0 {
        lemma_fewer_rows(commits.drop_last(), disputes);
    } else if disputes.len() > 0 {
        lemma_fewer_rows(commits, disputes.drop_last());
    }
}

/// Each table is restored from its own rows alone, and movements are taken over as
/// they are.
pub proof fn law_tables_are_restored_apart(
    providers: Seq<AccountView>,
    events: Seq<(Seq<char>, EventView)>,
    commits: Seq<CommitView>,
    disputes: Seq<DisputeView>,
    next: int,
)
    ensures
        ({
            let all = restored(providers, events, commits, disputes, next);
            &&& all.events == events
            &&& all.providers == restored(
                providers,
                Seq::empty(),
                Seq::empty(),
                Seq::empty(),
                1,
            ).providers
            &&& all.commits == restored(
                Seq::empty(),
                Seq::empty(),
                commits,
                Seq::empty(),
                1,
            ).commits
            &&& all.disputes == restored(
                Seq::empty(),
                Seq::empty(),
                Seq::empty(),
                disputes,
                1,
            ).disputes
            &&& all.next_dispute == restored(
                Seq::empty(),
                Seq::empty(),
                Seq::empty(),
                disputes,
                next,
            ).next_dispute
        }),
{
}

/// The next dispute of restored books gets the least number that is at least one,
/// at least the given one and above that of every row, as far as numbers go.
pub proof fn law_restored_numbers_go_on(rows: Seq<DisputeView>, given: int)
    requires
        given <= i64::MAX,
    ensures
        ({
            let next = restored(
                Seq::empty(),
                Seq::empty(),
                Seq::empty(),
                rows,
                given,
            ).next_dispute;
            &&& 1 <= next <= i64::MAX
            &&& next >= given
            &&& forall|i: int|
                0 <= i < rows.len() ==> (#[trigger] rows[i]).id < next || next == i64::MAX
            &&& next == 1 || next == given || exists|i: int|
                0 <= i < rows.len() && next <= (#[trigger] rows[i]).id + 1
        }),
    decreases rows.len(),
{
    if rows.len() > 0 {
        let front = rows.drop_last();
        let last = rows.len() - 1;
        law_restored_numbers_go_on(front, given);
        let before = next_number(front, given);
        let next = next_number(rows, given);
        assert forall|i: int| 0 <= i < rows.len() implies (#[trigger] rows[i]).id < next || next
            == i64::MAX by {
            if i < last {
                assert(front[i] == rows[i]);
            }
        }
        if next != 1 && next != given {
            if next == before {
                if exists|i: int| 0 <= i < front.len() && before <= (#[trigger] front[i]).id + 1 {
                    let i = choose|i: int|
                        0 <= i < front.len() && before <= (#[trigger] front[i]).id + 1;
                    assert(next <= rows[i].id + 1);
                }
            } else {
                assert(next <= rows[last].id + 1);
            }
        }
    }
}

/// What was asked for is done exactly as expected: the books and the answer are
/// those of the expected outcome, and what is refused leaves the books alone and
/// is answered with the reason.
pub proof fn law_requests_end_as_expected(
    before: StakingView,
    after: StakingView,
    expected: StakingView,
    account: AccountView,
    found: bool,
    number: int,
    error: StakingError,
    moved: Result<ProviderRecord, StakingError>,
    taken: Result<(), StakingError>,
    checked: Result<bool, StakingError>,
    opened: Result<i64, StakingError>,
)
    ensures
        is_transfer(Ok((expected, account)), before, after, moved) <==> after == expected
            && moved is Ok && moved->Ok_0@ == account,
        is_transfer(Err(error), before, after, moved) <==> after == before && moved is Err
            && moved->Err_0 == error,
        is_commit(Ok(expected), before, after, taken) <==> after == expected && taken is Ok,
        is_commit(Err(error), before, after, taken) <==> after == before && taken is Err
            && taken->Err_0 == error,
        is_reveal(Ok((expected, found)), before, after, checked) <==> after == expected
            && checked is Ok && checked->Ok_0 == found,
        is_reveal(Err(error), before, after, checked) <==> after == before && checked is Err
            && checked->Err_0 == error,
        is_challenge(Ok((expected, number)), before, after, opened) <==> after == expected
            && opened is Ok && opened->Ok_0 == number,
        is_challenge(Err(error), before, after, opened) <==> after == before && opened is Err
            && opened->Err_0 == error,
{
}

} // verus!
