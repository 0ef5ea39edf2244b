//! The requests that can be made of the staking state, and their replies.
use crate::fixed::Decimal;
use crate::ledger::{EventRecord, ProviderRecord, StakingError};
#[allow(unused_imports)]
use crate::ledger::{
    challenged, committed, recent_events, registered, resolved, revealed, staking_error_text,
    transferred, AccountView, EventView, Movement, StakingView,
};
#[allow(unused_imports)]
use crate::ordered_map::lookup;
use crate::staking::StakingState;
use crate::time::DateTime;
use crate::views::duplicate_opt;
#[allow(unused_imports)]
use crate::views::{view_opt, views};
use vstd::prelude::*;

verus! {

/// An account is to be opened.
#[derive(Debug)]
pub struct RegisterReq {
    pub provider_id: String,
    pub stake: Decimal,
}

/// An amount is to be moved.
#[derive(Debug)]
pub struct AmountReq {
    pub provider_id: String,
    pub amount: Decimal,
}

/// A provider is to be slashed.
#[derive(Debug)]
pub struct SlashReq {
    pub provider_id: String,
    pub amount: Decimal,
    pub reason: Option<String>,
}

/// A provider commits to a result.
#[derive(Debug)]
pub struct CommitReq {
    pub task_id: String,
    pub provider_id: String,
    pub commitment_hash: String,
}

/// A provider reveals its result.
#[derive(Debug)]
pub struct RevealReq {
    pub task_id: String,
    pub provider_id: String,
    pub result: String,
    pub salt: String,
}

/// A result is challenged.
#[derive(Debug)]
pub struct ChallengeReq {
    pub task_id: String,
    pub accuser_id: String,
    pub defendant_id: String,
    pub evidence: Option<String>,
}

/// A dispute is settled.
#[derive(Debug)]
pub struct ResolveReq {
    pub dispute_id: i64,
    pub guilty: bool,
}

/// What a reply holds.
#[derive(Debug, PartialEq, Eq)]
pub enum ReplyBody {
    /// Words.
    Text(String),
    /// An account.
    Account(ProviderRecord),
    /// Movements on an account.
    Events(Vec<EventRecord>),
    /// The number of a dispute.
    Number(i64),
}

/// A reply, with its HTTP status.
#[derive(Debug, PartialEq, Eq)]
pub struct Reply {
    pub status: u16,
    pub body: ReplyBody,
}

/// The mathematical value of a [`ReplyBody`].
pub enum BodyView {
    Text(Seq<char>),
    Account(AccountView),
    Events(Seq<EventView>),
    Number(int),
}

/// The mathematical value of a [`Reply`].
pub struct ReplyView {
    pub status: int,
    pub body: BodyView,
}

impl View for Reply {
    type V = ReplyView;

    open spec fn view(&self) -> ReplyView {
        ReplyView {
            status: self.status as int,
            body: match self.body {
                ReplyBody::Text(text) => BodyView::Text(text@),
                ReplyBody::Account(account) => BodyView::Account(account@),
                ReplyBody::Events(events) => BodyView::Events(views(events@)),
                ReplyBody::Number(n) => BodyView::Number(n as int),
            },
        }
    }
}

/// A reply of words.
pub open spec fn says(status: int, text: Seq<char>) -> ReplyView {
    ReplyView { status, body: BodyView::Text(text) }
}

/// The reply where there is no state.
pub open spec fn unavailable() -> ReplyView {
    says(503, "Staking not initialized"@)
}

/// The reply to a request that is refused.
pub open spec fn refused(error: StakingError) -> ReplyView {
    says(500, staking_error_text(error))
}

/// The reply that shows an account.
pub open spec fn shows(account: AccountView) -> ReplyView {
    ReplyView { status: 200, body: BodyView::Account(account) }
}

/// The state and the reply after a request to open an account.
pub open spec fn register_reply(
    state: Option<StakingView>,
    pid: Seq<char>,
    stake: Decimal,
    now: DateTime,
) -> (Option<StakingView>, ReplyView) {
    match state {
        None => (None, unavailable()),
        Some(before) => {
            let (after, account) = registered(before, pid, stake, now);
            (Some(after), shows(account))
        },
    }
}

/// The state and the reply after a request to move an amount.
pub open spec fn transfer_reply(
    state: Option<StakingView>,
    pid: Seq<char>,
    movement: Movement,
    amount: Decimal,
    memo: Option<Seq<char>>,
    now: DateTime,
) -> (Option<StakingView>, ReplyView) {
    match state {
        None => (None, unavailable()),
        Some(before) => match transferred(before, pid, movement, amount, memo, now) {
            Ok((after, account)) => (Some(after), shows(account)),
            Err(error) => (state, refused(error)),
        },
    }
}

/// The reply to a request for an account.
pub open spec fn account_reply(state: Option<StakingView>, pid: Seq<char>) -> ReplyView {
    match state {
        None => unavailable(),
        Some(known) => match lookup(known.providers, pid) {
            Some(account) => shows(account),
            None => says(404, "Provider not found"@),
        },
    }
}

/// The reply to a request for movements.
pub open spec fn events_reply(state: Option<StakingView>, pid: Seq<char>) -> ReplyView {
    match state {
        None => unavailable(),
        Some(known) => ReplyView {
            status: 200,
            body: BodyView::Events(recent_events(known, pid)),
        },
    }
}

/// The state and the reply after a commitment.
pub open spec fn commit_reply(
    state: Option<StakingView>,
    task_id: Seq<char>,
    pid: Seq<char>,
    hash: Seq<char>,
    now: DateTime,
) -> (Option<StakingView>, ReplyView) {
    match state {
        None => (None, unavailable()),
        Some(before) => match committed(before, task_id, pid, hash, now) {
            Ok(after) => (Some(after), says(200, "Committed"@)),
            Err(error) => (state, refused(error)),
        },
    }
}

/// The state and the reply after a result was revealed.
pub open spec fn reveal_reply(
    state: Option<StakingView>,
    task_id: Seq<char>,
    pid: Seq<char>,
    result: Seq<char>,
    salt: Seq<char>,
    now: DateTime,
) -> (Option<StakingView>, ReplyView) {
    match state {
        None => (None, unavailable()),
        Some(before) => match revealed(before, task_id, pid, result, salt, now) {
            Ok((after, valid)) => (
                Some(after),
                if valid {
                    says(200, "Reveal Valid"@)
                } else {
                    says(400, "Reveal Invalid"@)
                },
            ),
            Err(error) => (state, refused(error)),
        },
    }
}

/// The state and the reply after a challenge.
pub open spec fn challenge_reply(
    state: Option<StakingView>,
    task_id: Seq<char>,
    accuser: Seq<char>,
    defendant: Seq<char>,
    evidence: Option<Seq<char>>,
    now: DateTime,
) -> (Option<StakingView>, ReplyView) {
    match state {
        None => (None, unavailable()),
        Some(before) => match challenged(before, task_id, accuser, defendant, evidence, now) {
            Ok((after, id)) => (
                Some(after),
                ReplyView { status: 200, body: BodyView::Number(id) },
            ),
            Err(error) => (state, refused(error)),
        },
    }
}

/// The state and the reply after a dispute was settled.
pub open spec fn resolve_reply(
    state: Option<StakingView>,
    id: i64,
    guilty: bool,
    now: DateTime,
) -> (Option<StakingView>, ReplyView) {
    match state {
        None => (None, unavailable()),
        Some(before) => {
            let (after, outcome) = resolved(before, id, guilty, now);
            (
                Some(after),
                match outcome {
                    Ok(_) => says(200, "Resolved"@),
                    Err(error) => refused(error),
                },
            )
        },
    }
}

/// Without a state every request is answered alike, and no state comes about.
pub proof fn law_unavailable_without_state(
    pid: Seq<char>,
    movement: Movement,
    amount: Decimal,
    memo: Option<Seq<char>>,
    task_id: Seq<char>,
    text: Seq<char>,
    salt: Seq<char>,
    id: i64,
    guilty: bool,
    now: DateTime,
)
    ensures
        register_reply(None, pid, amount, now) == (None::<StakingView>, unavailable()),
        transfer_reply(None, pid, movement, amount, memo, now) == (
            None::<StakingView>,
            unavailable(),
        ),
        account_reply(None, pid) == unavailable(),
        events_reply(None, pid) == unavailable(),
        commit_reply(None, task_id, pid, text, now) == (None::<StakingView>, unavailable()),
        reveal_reply(None, task_id, pid, text, salt, now) == (None::<StakingView>, unavailable()),
        challenge_reply(None, task_id, text, pid, memo, now) == (
            None::<StakingView>,
            unavailable(),
        ),
        resolve_reply(None, id, guilty, now) == (None::<StakingView>, unavailable()),
{
}

/// A request to move an amount that is refused is answered with the reason, and
/// nothing changes.
pub proof fn law_refused_transfer_changes_nothing(
    state: StakingView,
    pid: Seq<char>,
    movement: Movement,
    amount: Decimal,
    memo: Option<Seq<char>>,
    now: DateTime,
)
    ensures
        transferred(state, pid, movement, amount, memo, now) matches Err(error) ==> transfer_reply(
            Some(state),
            pid,
            movement,
            amount,
            memo,
            now,
        ) == (Some(state), refused(error)),
        transfer_reply(Some(state), pid, movement, amount, memo, now).1.status != 200
            ==> transfer_reply(Some(state), pid, movement, amount, memo, now).0 == Some(state),
{
}

fn words(status: u16, text: &str) -> (reply: Reply)
    ensures
        reply@ == says(status as int, text@),
{
    Reply { status, body: ReplyBody::Text(text.to_string()) }
}

fn refuse(error: StakingError) -> (reply: Reply)
    ensures
        reply@ == refused(error),
{
    Reply { status: 500, body: ReplyBody::Text(error.to_text()) }
}

fn answer(outcome: Result<ProviderRecord, StakingError>) -> (reply: Reply)
    ensures
        reply@ == match outcome {
            Ok(account) => shows(account@),
            Err(error) => refused(error),
        },
{
    match outcome {
        Ok(account) => Reply { status: 200, body: ReplyBody::Account(account) },
        Err(error) => refuse(error),
    }
}

/// Opens an account.
pub fn register(state: &mut Option<StakingState>, req: &RegisterReq, now: DateTime) -> (reply: Reply)
    ensures
        (view_opt(*final(state)), reply@) == register_reply(
            view_opt(*old(state)),
            req.provider_id@,
            req.stake,
            now,
        ),
{
    match state {
        Some(known) => {
            let account = known.register_at(req.provider_id.as_str(), req.stake, now);
            Reply { status: 200, body: ReplyBody::Account(account) }
        },
        None => words(503, "Staking not initialized"),
    }
}

/// Adds to a stake.
pub fn stake(state: &mut Option<StakingState>, req: &AmountReq, now: DateTime) -> (reply: Reply)
    ensures
        (view_opt(*final(state)), reply@) == transfer_reply(
            view_opt(*old(state)),
            req.provider_id@,
            Movement::Stake,
            req.amount,
            None,
            now,
        ),
{
    match state {
        Some(known) => answer(known.stake_at(req.provider_id.as_str(), req.amount, now)),
        None => words(503, "Staking not initialized"),
    }
}

/// Rewards a provider.
pub fn reward(state: &mut Option<StakingState>, req: &AmountReq, now: DateTime) -> (reply: Reply)
    ensures
        (view_opt(*final(state)), reply@) == transfer_reply(
            view_opt(*old(state)),
            req.provider_id@,
            Movement::Reward,
            req.amount,
            None,
            now,
        ),
{
    match state {
        Some(known) => answer(known.reward_at(req.provider_id.as_str(), req.amount, now)),
        None => words(503, "Staking not initialized"),
    }
}

/// Slashes a provider.
pub fn slash(state: &mut Option<StakingState>, req: &SlashReq, now: DateTime) -> (reply: Reply)
    ensures
        (view_opt(*final(state)), reply@) == transfer_reply(
            view_opt(*old(state)),
            req.provider_id@,
            Movement::Slash,
            req.amount,
            view_opt(req.reason),
            now,
        ),
{
    match state {
        Some(known) => answer(
            known.slash_at(
                req.provider_id.as_str(),
                req.amount,
                duplicate_opt(&req.reason),
                now,
            ),
        ),
        None => words(503, "Staking not initialized"),
    }
}

/// Pays rewards out.
pub fn withdraw(state: &mut Option<StakingState>, req: &AmountReq, now: DateTime) -> (reply: Reply)
    ensures
        (view_opt(*final(state)), reply@) == transfer_reply(
            view_opt(*old(state)),
            req.provider_id@,
            Movement::Withdraw,
            req.amount,
            None,
            now,
        ),
{
    match state {
        Some(known) => answer(known.withdraw_at(req.provider_id.as_str(), req.amount, now)),
        None => words(503, "Staking not initialized"),
    }
}

/// Shows an account.
pub fn get_provider(state: &Option<StakingState>, pid: &str) -> (reply: Reply)
    ensures
        reply@ == account_reply(view_opt(*state), pid@),
{
    match state {
        Some(known) => match known.get_provider(pid) {
            Some(account) => Reply { status: 200, body: ReplyBody::Account(account) },
            None => words(404, "Provider not found"),
        },
        None => words(503, "Staking not initialized"),
    }
}

/// Shows the movements on an account.
pub fn get_events(state: &Option<StakingState>, pid: &str) -> (reply: Reply)
    ensures
        reply@ == events_reply(view_opt(*state), pid@),
{
    match state {
        Some(known) => Reply { status: 200, body: ReplyBody::Events(known.get_events(pid)) },
        None => words(503, "Staking not initialized"),
    }
}

/// Takes a commitment.
pub fn commit(state: &mut Option<StakingState>, req: &CommitReq, now: DateTime) -> (reply: Reply)
    ensures
        (view_opt(*final(state)), reply@) == commit_reply(
            view_opt(*old(state)),
            req.task_id@,
            req.provider_id@,
            req.commitment_hash@,
            now,
        ),
{
    match state {
        Some(known) => match known.commit_at(
            req.task_id.as_str(),
            req.provider_id.as_str(),
            req.commitment_hash.as_str(),
            now,
        ) {
            Ok(_) => words(200, "Committed"),
            Err(error) => refuse(error),
        },
        None => words(503, "Staking not initialized"),
    }
}

/// Takes a revealed result.
pub fn reveal_result(state: &mut Option<StakingState>, req: &RevealReq, now: DateTime) -> (reply:
    Reply)
    ensures
        (view_opt(*final(state)), reply@) == reveal_reply(
            view_opt(*old(state)),
            req.task_id@,
            req.provider_id@,
            req.result@,
            req.salt@,
            now,
        ),
{
    match state {
        Some(known) => match known.reveal_result_at(
            req.task_id.as_str(),
            req.provider_id.as_str(),
            req.result.as_str(),
            req.salt.as_str(),
            now,
        ) {
            Ok(valid) => if valid {
                words(200, "Reveal Valid")
            } else {
                words(400, "Reveal Invalid")
            },
            Err(error) => refuse(error),
        },
        None => words(503, "Staking not initialized"),
    }
}

/// Takes a challenge.
pub fn challenge(state: &mut Option<StakingState>, req: &ChallengeReq, now: DateTime) -> (reply:
    Reply)
    ensures
        (view_opt(*final(state)), reply@) == challenge_reply(
            view_opt(*old(state)),
            req.task_id@,
            req.accuser_id@,
            req.defendant_id@,
            view_opt(req.evidence),
            now,
        ),
{
    match state {
        Some(known) => match known.challenge_at(
            req.task_id.as_str(),
            req.accuser_id.as_str(),
            req.defendant_id.as_str(),
            duplicate_opt(&req.evidence),
            now,
        ) {
            Ok(id) => Reply { status: 200, body: ReplyBody::Number(id) },
            Err(error) => refuse(error),
        },
        None => words(503, "Staking not initialized"),
    }
}

/// Settles a dispute.
pub fn resolve(state: &mut Option<StakingState>, req: &ResolveReq, now: DateTime) -> (reply: Reply)
    ensures
        (view_opt(*final(state)), reply@) == resolve_reply(
            view_opt(*old(state)),
            req.dispute_id,
            req.guilty,
            now,
        ),
{
    match state {
        Some(known) => match known.resolve_dispute_at(req.dispute_id, req.guilty, now) {
            Ok(_) => words(200, "Resolved"),
            Err(error) => refuse(error),
        },
        None => words(503, "Staking not initialized"),
    }
}

// ---------------------------------------------------------------- laws

/// Without a state the answer is 503 in these words.
pub proof fn law_unavailable_is_said(pid: Seq<char>)
    ensures
        account_reply(None, pid) == (ReplyView {
            status: 503,
            body: BodyView::Text("Staking not initialized"@),
        }),
        events_reply(None, pid) == account_reply(None, pid),
{
}

/// Opening an account and moving money answer 200 with the account as the books
/// have it now, and 500 with the reason where the movement is refused.
pub proof fn law_account_changes_are_answered(
    state: StakingView,
    pid: Seq<char>,
    movement: Movement,
    amount: Decimal,
    memo: Option<Seq<char>>,
    now: DateTime,
)
    ensures
        register_reply(Some(state), pid, amount, now) == (
            Some(registered(state, pid, amount, now).0),
            ReplyView {
                status: 200,
                body: BodyView::Account(registered(state, pid, amount, now).1),
            },
        ),
        match transferred(state, pid, movement, amount, memo, now) {
            Ok((after, account)) => transfer_reply(
                Some(state),
                pid,
                movement,
                amount,
                memo,
                now,
            ) == (
                Some(after),
                ReplyView { status: 200, body: BodyView::Account(account) },
            ),
            Err(error) => transfer_reply(Some(state), pid, movement, amount, memo, now) == (
                Some(state),
                ReplyView { status: 500, body: BodyView::Text(staking_error_text(error)) },
            ),
        },
{
}

/// An account that is open is shown with 200, and one that is not is answered with
/// 404. Movements are shown with 200.
pub proof fn law_accounts_are_shown(state: StakingView, pid: Seq<char>)
    ensures
        match lookup(state.providers, pid) {
            Some(account) => account_reply(Some(state), pid) == (ReplyView {
                status: 200,
                body: BodyView::Account(account),
            }),
            None => account_reply(Some(state), pid) == (ReplyView {
                status: 404,
                body: BodyView::Text("Provider not found"@),
            }),
        },
        events_reply(Some(state), pid) == (ReplyView {
            status: 200,
            body: BodyView::Events(recent_events(state, pid)),
        }),
{
}

/// A commitment that is taken is answered with 200. A result that is revealed is
/// answered with 200 where it fits and with 400 where it does not. Both are
/// answered with 500 and the reason where they are refused, and then nothing
/// changes.
pub proof fn law_promises_are_answered(
    state: StakingView,
    task_id: Seq<char>,
    pid: Seq<char>,
    text: Seq<char>,
    salt: Seq<char>,
    now: DateTime,
)
    ensures
        match committed(state, task_id, pid, text, now) {
            Ok(after) => commit_reply(Some(state), task_id, pid, text, now) == (
                Some(after),
                ReplyView { status: 200, body: BodyView::Text("Committed"@) },
            ),
            Err(error) => commit_reply(Some(state), task_id, pid, text, now) == (
                Some(state),
                ReplyView { status: 500, body: BodyView::Text(staking_error_text(error)) },
            ),
        },
        match revealed(state, task_id, pid, text, salt, now) {
            Ok((after, true)) => reveal_reply(Some(state), task_id, pid, text, salt, now) == (
                Some(after),
                ReplyView { status: 200, body: BodyView::Text("Reveal Valid"@) },
            ),
            Ok((after, false)) => reveal_reply(Some(state), task_id, pid, text, salt, now) == (
                Some(after),
                ReplyView { status: 400, body: BodyView::Text("Reveal Invalid"@) },
            ),
            Err(error) => reveal_reply(Some(state), task_id, pid, text, salt, now) == (
                Some(state),
                ReplyView { status: 500, body: BodyView::Text(staking_error_text(error)) },
            ),
        },
{
}

/// A challenge is answered with 200 and the number of the dispute, a settlement
/// with 200. Where they are refused the answer is 500 with the reason; a challenge
/// then changes nothing, and of a settlement what was done stays.
pub proof fn law_disputes_are_answered(
    state: StakingView,
    task_id: Seq<char>,
    accuser: Seq<char>,
    defendant: Seq<char>,
    evidence: Option<Seq<char>>,
    id: i64,
    guilty: bool,
    now: DateTime,
)
    ensures
        match challenged(state, task_id, accuser, defendant, evidence, now) {
            Ok((after, number)) => challenge_reply(
                Some(state),
                task_id,
                accuser,
                defendant,
                evidence,
                now,
            ) == (Some(after), ReplyView { status: 200, body: BodyView::Number(number) }),
            Err(error) => challenge_reply(
                Some(state),
                task_id,
                accuser,
                defendant,
                evidence,
                now,
            ) == (
                Some(state),
                ReplyView { status: 500, body: BodyView::Text(staking_error_text(error)) },
            ),
        },
        resolve_reply(Some(state), id, guilty, now).0 == Some(
            resolved(state, id, guilty, now).0,
        ),
        match resolved(state, id, guilty, now).1 {
            Ok(_) => resolve_reply(Some(state), id, guilty, now).1 == (ReplyView {
                status: 200,
                body: BodyView::Text("Resolved"@),
            }),
            Err(error) => resolve_reply(Some(state), id, guilty, now).1 == (ReplyView {
                status: 500,
                body: BodyView::Text(staking_error_text(error)),
            }),
        },
{
}

} // verus!
