//! The verifier: tasks are registered, results come in, verdicts are asked for.
use crate::error::{VerifierError, VerifierResult};
#[allow(unused_imports)]
use crate::error::ErrorView;
use crate::fixed::Quantity;
use crate::node::NodeId;
use crate::offense::OffenseContext;
use crate::ordered_map::OrderedMap;
#[allow(unused_imports)]
use crate::ordered_map::{keys_distinct, lemma_upsert_lookup, lookup, upsert};
use crate::result_collector::{ProviderResult, ResultCollector, VerificationResult};
#[allow(unused_imports)]
use crate::result_collector::{status, submission, CollectorView, ProviderView, VerificationView};
use crate::severity::SeverityEvaluator;
#[allow(unused_imports)]
use crate::severity::{countable, EvaluatorView};
use crate::slashing::{
    generate_slashing_actions, generate_slashing_actions_advanced,
    generate_slashing_actions_with_severity, OffenseTracker, SlashingAction, SlashingConfig,
};
#[allow(unused_imports)]
use crate::slashing::{
    default_config, has_room, is_slashed, new_evaluator, slashed_all, stake_slashed_all,
    ConfigView, TrackerView,
};
use crate::time::{utc_now, DateTime, Duration};
#[allow(unused_imports)]
use crate::time::{duration_text, elapsed_nanos};
#[allow(unused_imports)]
use crate::views::views;
use vstd::prelude::*;

verus! {

/// A provider's result is handed in.
#[derive(Debug)]
pub struct SubmitResult {
    pub result: ProviderResult,
}

/// The state of a verification is asked for.
#[derive(Debug)]
pub struct GetVerificationStatus {
    pub task_id: String,
    pub batch_id: String,
}

/// The verdict on a task is waited for.
#[derive(Debug)]
pub struct WaitForVerification {
    pub task_id: String,
    pub batch_id: String,
    pub timeout: Option<Duration>,
}

/// A task is announced.
#[derive(Debug)]
pub struct RegisterTask {
    pub task_id: String,
    pub batch_id: String,
    pub expected_providers: usize,
    pub timeout: Option<Duration>,
}

/// What to do while waiting for a verdict.
#[derive(Debug)]
pub enum WaitDecision {
    /// Waiting is over.
    Finished(VerifierResult<VerificationResult>),
    /// Look again after this time.
    Again(Duration),
}

/// The mathematical value of a [`WaitDecision`].
pub enum WaitView {
    Finished(Result<VerificationView, ErrorView>),
    Again(Duration),
}

impl View for WaitDecision {
    type V = WaitView;

    open spec fn view(&self) -> WaitView {
        match *self {
            WaitDecision::Finished(Ok(verdict)) => WaitView::Finished(Ok(verdict@)),
            WaitDecision::Finished(Err(error)) => WaitView::Finished(Err(error@)),
            WaitDecision::Again(pause) => WaitView::Again(pause),
        }
    }
}

/// The mathematical value of a [`VerifierService`].
pub struct ServiceView {
    pub collectors: Seq<(Seq<char>, CollectorView)>,
    pub offense_tracker: TrackerView,
    pub severity_evaluator: EvaluatorView,
    pub slashing_config: ConfigView,
}

/// The name under which a task is filed.
pub open spec fn collector_key(task_id: Seq<char>, batch_id: Seq<char>) -> Seq<char> {
    task_id + ":"@ + batch_id
}

/// A collector without results.
pub open spec fn empty_collector(
    task_id: Seq<char>,
    batch_id: Seq<char>,
    expected_providers: int,
    timeout: Option<Duration>,
    now: DateTime,
) -> CollectorView {
    CollectorView {
        task_id,
        batch_id,
        expected_providers,
        results: Seq::empty(),
        timeout,
        start_time: now,
    }
}

/// What announcing a task leads to.
pub open spec fn registration(service: ServiceView, msg: RegisterTask, now: DateTime) -> Result<
    ServiceView,
    ErrorView,
> {
    let key = collector_key(msg.task_id@, msg.batch_id@);
    if lookup(service.collectors, key) is Some {
        Err(ErrorView::Internal("Task "@ + key + " already registered"@))
    } else {
        Ok(
            ServiceView {
                collectors: upsert(
                    service.collectors,
                    key,
                    empty_collector(
                        msg.task_id@,
                        msg.batch_id@,
                        msg.expected_providers as int,
                        msg.timeout,
                        now,
                    ),
                ),
                ..service
            },
        )
    }
}

/// What handing in a result leads to.
pub open spec fn handed_in(service: ServiceView, result: ProviderView) -> Result<
    ServiceView,
    ErrorView,
> {
    let key = collector_key(result.task_id, result.batch_id);
    match lookup(service.collectors, key) {
        None => Err(ErrorView::TaskNotFound(key)),
        Some(collector) => match submission(collector, result) {
            Err(error) => Err(error),
            Ok(after) => Ok(
                ServiceView { collectors: upsert(service.collectors, key, after), ..service },
            ),
        },
    }
}

/// The state of the verification of a task.
pub open spec fn task_status(
    service: ServiceView,
    task_id: Seq<char>,
    batch_id: Seq<char>,
) -> Result<VerificationView, ErrorView> {
    let key = collector_key(task_id, batch_id);
    match lookup(service.collectors, key) {
        None => Err(ErrorView::TaskNotFound(key)),
        Some(collector) => Ok(status(collector.results, collector.expected_providers)),
    }
}

/// What to do at the time `now` with a state, where waiting began at `start`.
pub open spec fn wait_step(
    state: VerificationView,
    timeout: Option<Duration>,
    start: DateTime,
    now: DateTime,
) -> WaitView {
    let elapsed = elapsed_nanos(now, start);
    let limit: int = match timeout {
        Some(given) => given.nanos as int,
        None => 60_000_000_000,
    };
    match state {
        VerificationView::Pending { .. } => if elapsed > limit {
            WaitView::Finished(
                Err(
                    ErrorView::Timeout(
                        "Timeout waiting for verification after "@ + duration_text(elapsed),
                    ),
                ),
            )
        } else {
            WaitView::Again(Duration { nanos: 100_000_000 })
        },
        _ => WaitView::Finished(Ok(state)),
    }
}

/// What to do at the time `now` for someone who waits since `start`.
pub open spec fn waiting(
    service: ServiceView,
    msg: WaitForVerification,
    start: DateTime,
    now: DateTime,
) -> WaitView {
    match task_status(service, msg.task_id@, msg.batch_id@) {
        Err(error) => WaitView::Finished(Err(error)),
        Ok(state) => wait_step(state, msg.timeout, start, now),
    }
}

/// A task can be announced once.
pub proof fn law_second_registration_is_refused(
    service: ServiceView,
    first: RegisterTask,
    second: RegisterTask,
    now: DateTime,
    later: DateTime,
)
    requires
        keys_distinct(service.collectors),
        registration(service, first, now) is Ok,
        first.task_id@ == second.task_id@,
        first.batch_id@ == second.batch_id@,
    ensures
        registration(registration(service, first, now)->Ok_0, second, later) == Err::<
            ServiceView,
            _,
        >(
            ErrorView::Internal(
                "Task "@ + collector_key(first.task_id@, first.batch_id@)
                    + " already registered"@,
            ),
        ),
{
    let key = collector_key(first.task_id@, first.batch_id@);
    let fresh = empty_collector(
        first.task_id@,
        first.batch_id@,
        first.expected_providers as int,
        first.timeout,
        now,
    );
    lemma_upsert_lookup(service.collectors, key, fresh, key);
}

/// Nothing can be handed in for a task, or asked of it, that was not announced.
pub proof fn law_unknown_task_is_refused(
    service: ServiceView,
    result: ProviderView,
    wait: WaitForVerification,
    start: DateTime,
    now: DateTime,
)
    requires
        lookup(service.collectors, collector_key(result.task_id, result.batch_id)) is None,
        wait.task_id@ == result.task_id,
        wait.batch_id@ == result.batch_id,
    ensures
        handed_in(service, result) == Err::<ServiceView, _>(
            ErrorView::TaskNotFound(collector_key(result.task_id, result.batch_id)),
        ),
        task_status(service, result.task_id, result.batch_id) == Err::<VerificationView, _>(
            ErrorView::TaskNotFound(collector_key(result.task_id, result.batch_id)),
        ),
        waiting(service, wait, start, now) == WaitView::Finished(
            Err(ErrorView::TaskNotFound(collector_key(result.task_id, result.batch_id))),
        ),
{
}

/// A result that is handed in for an announced task counts for that task and
/// leaves every other task alone.
pub proof fn law_tasks_are_independent(
    service: ServiceView,
    result: ProviderView,
    other: Seq<char>,
)
    requires
        keys_distinct(service.collectors),
        handed_in(service, result) is Ok,
        other != collector_key(result.task_id, result.batch_id),
    ensures
        lookup(handed_in(service, result)->Ok_0.collectors, other) == lookup(
            service.collectors,
            other,
        ),
        lookup(
            handed_in(service, result)->Ok_0.collectors,
            collector_key(result.task_id, result.batch_id),
        ) == Some(
            submission(
                lookup(
                    service.collectors,
                    collector_key(result.task_id, result.batch_id),
                ).unwrap(),
                result,
            )->Ok_0,
        ),
{
    let key = collector_key(result.task_id, result.batch_id);
    let after = submission(lookup(service.collectors, key).unwrap(), result)->Ok_0;
    lemma_upsert_lookup(service.collectors, key, after, other);
}

/// Tasks whose names hold no colon are filed apart.
pub proof fn law_keys_are_told_apart(
    task_a: Seq<char>,
    batch_a: Seq<char>,
    task_b: Seq<char>,
    batch_b: Seq<char>,
)
    requires
        !task_a.contains(':'),
        !task_b.contains(':'),
        collector_key(task_a, batch_a) == collector_key(task_b, batch_b),
    ensures
        task_a == task_b,
        batch_a == batch_b,
{
    reveal_strlit(":");
    let a = collector_key(task_a, batch_a);
    let b = collector_key(task_b, batch_b);
    let n = task_a.len() as int;
    let m = task_b.len() as int;
    assert(a[n] == ':');
    assert(b[m] == ':');
    if n < m {
        assert(b[n] == task_b[n]);
    } else if m < n {
        assert(a[m] == task_a[m]);
    }
    assert(task_a =~= a.take(n));
    assert(task_b =~= b.take(n));
    assert(batch_a =~= a.skip(n + 1));
    assert(batch_b =~= b.skip(n + 1));
}

/// Waiting ends with a verdict or with an error, never with a pending state, and
/// it ends at the latest once the time is over.
pub proof fn law_waiting_ends(
    state: VerificationView,
    timeout: Option<Duration>,
    start: DateTime,
    now: DateTime,
)
    ensures
        wait_step(state, timeout, start, now) matches WaitView::Finished(Ok(verdict))
            ==> !(verdict is Pending) && verdict == state,
        !(state is Pending) ==> wait_step(state, timeout, start, now) == WaitView::Finished(
            Ok(state),
        ),
        elapsed_nanos(now, start) > (match timeout {
            Some(given) => given.nanos as int,
            None => 60_000_000_000,
        }) ==> wait_step(state, timeout, start, now) is Finished,
{
}

/// The verifier.
#[derive(Debug)]
pub struct VerifierService {
    /// The collectors of the announced tasks.
    collectors: OrderedMap<String, ResultCollector>,
    /// The offenses so far.
    offense_tracker: OffenseTracker,
    /// The judge of offenses.
    severity_evaluator: SeverityEvaluator,
    /// The rules for penalties.
    slashing_config: SlashingConfig,
}

impl View for VerifierService {
    type V = ServiceView;

    closed spec fn view(&self) -> ServiceView {
        ServiceView {
            collectors: self.collectors@,
            offense_tracker: self.offense_tracker@,
            severity_evaluator: self.severity_evaluator@,
            slashing_config: self.slashing_config@,
        }
    }
}

impl VerifierService {
    /// A verifier without tasks.
    pub fn new(slashing_config: Option<SlashingConfig>) -> (service: Self)
        ensures
            ({
                let config = match slashing_config {
                    Some(given) => given@,
                    None => default_config(),
                };
                service@ == ServiceView {
                    collectors: Seq::empty(),
                    offense_tracker: TrackerView {
                        offenses: Seq::empty(),
                        last_times: Seq::empty(),
                        config,
                    },
                    severity_evaluator: new_evaluator(),
                    slashing_config: config,
                }
            }),
            keys_distinct(service@.collectors),
    {
        let config = match slashing_config {
            Some(given) => given,
            None => SlashingConfig::default(),
        };
        VerifierService {
            collectors: OrderedMap::new(),
            offense_tracker: OffenseTracker::new(config.clone()),
            severity_evaluator: SeverityEvaluator::new(),
            slashing_config: config,
        }
    }

    /// The name under which a task is filed.
    pub fn get_collector_key(task_id: &str, batch_id: &str) -> (key: String)
        ensures
            key@ == collector_key(task_id@, batch_id@),
    {
        let mut key = task_id.to_string();
        key.append(":");
        key.append(batch_id);
        key
    }

    /// The collector of a task, which is announced where it is not yet.
    pub fn get_or_create_collector_at(
        &mut self,
        task_id: String,
        batch_id: String,
        expected_providers: usize,
        timeout: Option<Duration>,
        now: DateTime,
    )
        ensures
            final(self)@ == (match lookup(
                old(self)@.collectors,
                collector_key(task_id@, batch_id@),
            ) {
                Some(_) => old(self)@,
                None => ServiceView {
                    collectors: upsert(
                        old(self)@.collectors,
                        collector_key(task_id@, batch_id@),
                        empty_collector(
                            task_id@,
                            batch_id@,
                            expected_providers as int,
                            timeout,
                            now,
                        ),
                    ),
                    ..old(self)@
                },
            }),
            keys_distinct(final(self)@.collectors),
    {
        proof {
            use_type_invariant(&self.collectors);
        }
        let key = Self::get_collector_key(task_id.as_str(), batch_id.as_str());
        if self.collectors.contains_key(&key) {
            return;
        }
        let collector = ResultCollector::new_at(
            task_id,
            batch_id,
            expected_providers,
            timeout,
            now,
        );
        self.collectors.insert(key, collector);
        proof {
            use_type_invariant(&self.collectors);
        }
    }

    /// The collector of a task.
    pub fn get_collector(&self, task_id: &str, batch_id: &str) -> (found: VerifierResult<
        &ResultCollector,
    >)
        ensures
            match found {
                Ok(collector) => lookup(
                    self@.collectors,
                    collector_key(task_id@, batch_id@),
                ) == Some(collector@),
                Err(error) => lookup(self@.collectors, collector_key(task_id@, batch_id@)) is None
                    && error@ == ErrorView::TaskNotFound(collector_key(task_id@, batch_id@)),
            },
            keys_distinct(self@.collectors),
    {
        proof {
            use_type_invariant(&self.collectors);
        }
        let key = Self::get_collector_key(task_id, batch_id);
        match self.collectors.get(&key) {
            Some(collector) => Ok(collector),
            None => Err(VerifierError::TaskNotFound(key)),
        }
    }

    /// Announces a task at the current time.
    pub fn register_task(&mut self, msg: RegisterTask) -> (outcome: VerifierResult<()>)
        ensures
            exists|now: DateTime|
                match outcome {
                    Ok(_) => #[trigger] registration(old(self)@, msg, now) == Ok::<_, ErrorView>(
                        final(self)@,
                    ),
                    Err(error) => registration(old(self)@, msg, now) == Err::<ServiceView, _>(
                        error@,
                    ) && final(self)@ == old(self)@,
                },
            keys_distinct(final(self)@.collectors),
    {
        let now = utc_now();
        self.register_task_at(msg, now)
    }

    /// Announces a task at the time `now`.
    pub fn register_task_at(&mut self, msg: RegisterTask, now: DateTime) -> (outcome:
        VerifierResult<()>)
        ensures
            match outcome {
                Ok(_) => registration(old(self)@, msg, now) == Ok::<_, ErrorView>(final(self)@),
                Err(error) => registration(old(self)@, msg, now) == Err::<ServiceView, _>(error@)
                    && final(self)@ == old(self)@,
            },
            keys_distinct(final(self)@.collectors),
    {
        proof {
            use_type_invariant(&self.collectors);
        }
        let key = Self::get_collector_key(msg.task_id.as_str(), msg.batch_id.as_str());
        if self.collectors.contains_key(&key) {
            let mut text = "Task ".to_string();
            text.append(key.as_str());
            text.append(" already registered");
            return Err(VerifierError::Internal(text));
        }
        let collector = ResultCollector::new_at(
            msg.task_id,
            msg.batch_id,
            msg.expected_providers,
            msg.timeout,
            now,
        );
        self.collectors.insert(key, collector);
        proof {
            use_type_invariant(&self.collectors);
        }
        Ok(())
    }

    /// Hands in a result.
    pub fn submit_result(&mut self, msg: SubmitResult) -> (outcome: VerifierResult<()>)
        ensures
            match outcome {
                Ok(_) => handed_in(old(self)@, msg.result@) == Ok::<_, ErrorView>(final(self)@),
                Err(error) => handed_in(old(self)@, msg.result@) == Err::<ServiceView, _>(error@)
                    && final(self)@ == old(self)@,
            },
            keys_distinct(final(self)@.collectors),
    {
        proof {
            use_type_invariant(&self.collectors);
        }
        let result = msg.result;
        let key = Self::get_collector_key(result.task_id.as_str(), result.batch_id.as_str());
        match self.collectors.position(&key) {
            None => Err(VerifierError::TaskNotFound(key)),
            Some(i) => {
                let ghost before = self.collectors@;
                // The collector is taken out while it is written to.
                let mut collector = ResultCollector::new_at(
                    String::new(),
                    String::new(),
                    0,
                    None,
                    result.timestamp,
                );
                self.collectors.swap_value(i, &mut collector);
                let outcome = collector.submit_result(result);
                self.collectors.swap_value(i, &mut collector);
                proof {
                    use_type_invariant(&self.collectors);
                    if outcome is Err {
                        assert(self.collectors@ =~= before);
                    } else {
                        assert(self.collectors@ =~= before.update(
                            i as int,
                            self.collectors@[i as int],
                        ));
                    }
                }
                outcome
            },
        }
    }

    /// The state of the verification of a task.
    pub fn get_verification_status(&self, msg: &GetVerificationStatus) -> (outcome: VerifierResult<
        VerificationResult,
    >)
        ensures
            match outcome {
                Ok(state) => task_status(self@, msg.task_id@, msg.batch_id@) == Ok::<_, ErrorView>(
                    state@,
                ),
                Err(error) => task_status(self@, msg.task_id@, msg.batch_id@) == Err::<
                    VerificationView,
                    _,
                >(error@),
            },
            keys_distinct(self@.collectors),
    {
        match self.get_collector(msg.task_id.as_str(), msg.batch_id.as_str()) {
            Ok(collector) => Ok(collector.get_status()),
            Err(error) => Err(error),
        }
    }

    /// What to do at the time `now` for someone who waits since `start`.
    pub fn wait_for_verification(
        &self,
        msg: &WaitForVerification,
        start: DateTime,
        now: DateTime,
    ) -> (decision: WaitDecision)
        ensures
            decision@ == waiting(self@, *msg, start, now),
            keys_distinct(self@.collectors),
    {
        match self.get_collector(msg.task_id.as_str(), msg.batch_id.as_str()) {
            Ok(collector) => decide_wait(collector.get_status(), msg.timeout, start, now),
            Err(error) => WaitDecision::Finished(Err(error)),
        }
    }
}

/// What to do at the time `now` with a state, where waiting began at `start`.
pub fn decide_wait(
    state: VerificationResult,
    timeout: Option<Duration>,
    start: DateTime,
    now: DateTime,
) -> (decision: WaitDecision)
    ensures
        decision@ == wait_step(state@, timeout, start, now),
{
    let pending = match &state {
        VerificationResult::Pending { .. } => true,
        _ => false,
    };
    if !pending {
        return WaitDecision::Finished(Ok(state));
    }
    let limit = match timeout {
        Some(given) => given,
        None => Duration::seconds(60),
    };
    let elapsed = now.since(&start);
    if elapsed.nanos > limit.nanos {
        let mut text = "Timeout waiting for verification after ".to_string();
        let length = elapsed.to_text();
        text.append(length.as_str());
        WaitDecision::Finished(Err(VerifierError::Timeout(text)))
    } else {
        WaitDecision::Again(Duration::milliseconds(100))
    }
}

/// Penalties for malicious providers of which nothing else is known.
pub fn get_slashing_actions(
    malicious_providers: &[NodeId],
    offense_tracker: &mut OffenseTracker,
) -> (actions: Vec<SlashingAction>)
    requires
        has_room(old(offense_tracker)@, malicious_providers@.len() as int),
    ensures
        exists|now: DateTime|
            final(offense_tracker)@ == (#[trigger] slashed_all(
                old(offense_tracker)@,
                new_evaluator(),
                views(malicious_providers@),
                Seq::empty(),
                now,
            )).tracker && views(actions@) == slashed_all(
                old(offense_tracker)@,
                new_evaluator(),
                views(malicious_providers@),
                Seq::empty(),
                now,
            ).actions,
{
    generate_slashing_actions(malicious_providers, offense_tracker)
}

/// Penalties for malicious providers, with their severity.
pub fn get_slashing_actions_with_severity(
    malicious_providers: &[NodeId],
    offense_tracker: &mut OffenseTracker,
    severity_evaluator: &mut SeverityEvaluator,
    offense_contexts: &[OffenseContext],
) -> (actions: Vec<SlashingAction>)
    requires
        has_room(old(offense_tracker)@, malicious_providers@.len() as int),
        countable(old(severity_evaluator)@.history, malicious_providers@.len() as int),
    ensures
        exists|now: DateTime|
            is_slashed(
                #[trigger] slashed_all(
                    old(offense_tracker)@,
                    old(severity_evaluator)@,
                    views(malicious_providers@),
                    views(offense_contexts@),
                    now,
                ),
                final(offense_tracker)@,
                final(severity_evaluator)@,
                views(actions@),
            ),
{
    generate_slashing_actions_with_severity(
        malicious_providers,
        offense_tracker,
        severity_evaluator,
        offense_contexts,
    )
}

/// Penalties for malicious providers, with their severity and in relation to
/// their stakes.
pub fn get_slashing_actions_advanced(
    malicious_providers: &[NodeId],
    offense_tracker: &mut OffenseTracker,
    severity_evaluator: &mut SeverityEvaluator,
    offense_contexts: &[OffenseContext],
    stake_amounts: &OrderedMap<NodeId, Quantity>,
) -> (actions: Vec<SlashingAction>)
    requires
        has_room(old(offense_tracker)@, malicious_providers@.len() as int),
        countable(old(severity_evaluator)@.history, malicious_providers@.len() as int),
    ensures
        exists|now: DateTime|
            is_slashed(
                #[trigger] stake_slashed_all(
                    old(offense_tracker)@,
                    old(severity_evaluator)@,
                    views(malicious_providers@),
                    views(offense_contexts@),
                    stake_amounts@,
                    now,
                ),
                final(offense_tracker)@,
                final(severity_evaluator)@,
                views(actions@),
            ),
{
    generate_slashing_actions_advanced(
        malicious_providers,
        offense_tracker,
        severity_evaluator,
        offense_contexts,
        stake_amounts,
    )
}

// ---------------------------------------------------------------- laws

/// A task is filed under its name, a colon and the name of the batch.
pub proof fn law_tasks_are_filed_by_name(task_id: Seq<char>, batch_id: Seq<char>)
    ensures
        collector_key(task_id, batch_id) == task_id + seq![':'] + batch_id,
{
    reveal_strlit(":");
    assert(":"@ =~= seq![':']);
}

/// A task is announced exactly where it is not known yet. It is filed with what
/// was announced and without results; other tasks, the offenses and the rules stay
/// as they are.
pub proof fn law_registration_files_the_task(
    service: ServiceView,
    msg: RegisterTask,
    now: DateTime,
    other: Seq<char>,
)
    requires
        keys_distinct(service.collectors),
    ensures
        ({
            let key = collector_key(msg.task_id@, msg.batch_id@);
            let known = lookup(service.collectors, key) is Some;
            let outcome = registration(service, msg, now);
            &&& known ==> outcome == Err::<ServiceView, _>(
                ErrorView::Internal("Task "@ + key + " already registered"@),
            )
            &&& outcome is Ok <==> !known
            &&& outcome matches Ok(after) ==> {
                &&& lookup(after.collectors, key) == Some(
                    CollectorView {
                        task_id: msg.task_id@,
                        batch_id: msg.batch_id@,
                        expected_providers: msg.expected_providers as int,
                        results: Seq::empty(),
                        timeout: msg.timeout,
                        start_time: now,
                    },
                )
                &&& other != key ==> lookup(after.collectors, other) == lookup(
                    service.collectors,
                    other,
                )
                &&& after.offense_tracker == service.offense_tracker
                &&& after.severity_evaluator == service.severity_evaluator
                &&& after.slashing_config == service.slashing_config
            }
        }),
{
    let key = collector_key(msg.task_id@, msg.batch_id@);
    lemma_upsert_lookup(
        service.collectors,
        key,
        empty_collector(
            msg.task_id@,
            msg.batch_id@,
            msg.expected_providers as int,
            msg.timeout,
            now,
        ),
        other,
    );
}

/// A result goes to the collector of its task, which takes or refuses it. Nothing
/// but that collector changes.
pub proof fn law_results_go_to_their_task(
    service: ServiceView,
    result: ProviderView,
    other: Seq<char>,
)
    requires
        keys_distinct(service.collectors),
    ensures
        ({
            let key = collector_key(result.task_id, result.batch_id);
            let outcome = handed_in(service, result);
            match lookup(service.collectors, key) {
                None => outcome == Err::<ServiceView, _>(ErrorView::TaskNotFound(key)),
                Some(collector) => match submission(collector, result) {
                    Err(error) => outcome == Err::<ServiceView, _>(error),
                    Ok(filled) => {
                        &&& outcome is Ok
                        &&& lookup(outcome->Ok_0.collectors, key) == Some(filled)
                        &&& other != key ==> lookup(outcome->Ok_0.collectors, other) == lookup(
                            service.collectors,
                            other,
                        )
                        &&& outcome->Ok_0.offense_tracker == service.offense_tracker
                        &&& outcome->Ok_0.severity_evaluator == service.severity_evaluator
                        &&& outcome->Ok_0.slashing_config == service.slashing_config
                    },
                },
            }
        }),
{
    let key = collector_key(result.task_id, result.batch_id);
    if let Some(collector) = lookup(service.collectors, key) {
        if let Ok(filled) = submission(collector, result) {
            lemma_upsert_lookup(service.collectors, key, filled, other);
        }
    }
}

/// The state of a task is that of its collector.
pub proof fn law_status_is_that_of_the_collector(
    service: ServiceView,
    task_id: Seq<char>,
    batch_id: Seq<char>,
)
    ensures
        ({
            let key = collector_key(task_id, batch_id);
            match lookup(service.collectors, key) {
                None => task_status(service, task_id, batch_id) == Err::<VerificationView, _>(
                    ErrorView::TaskNotFound(key),
                ),
                Some(collector) => task_status(service, task_id, batch_id) == Ok::<_, ErrorView>(
                    status(collector.results, collector.expected_providers),
                ),
            }
        }),
{
}

/// Whoever waits gets the verdict as soon as there is one. Until the time is over,
/// which is a minute where nothing else was agreed, the state is looked at again
/// after a tenth of a second; then waiting ends with an error that tells how long
/// it was.
pub proof fn law_waiting_is_timed(
    service: ServiceView,
    msg: WaitForVerification,
    start: DateTime,
    now: DateTime,
)
    ensures
        ({
            let decision = waiting(service, msg, start, now);
            let passed = elapsed_nanos(now, start);
            let limit: int = if msg.timeout is Some {
                msg.timeout.unwrap().nanos as int
            } else {
                60_000_000_000
            };
            match task_status(service, msg.task_id@, msg.batch_id@) {
                Err(error) => decision == WaitView::Finished(Err(error)),
                Ok(VerificationView::Pending { .. }) => {
                    &&& passed <= limit ==> decision == WaitView::Again(
                        Duration { nanos: 100_000_000 },
                    )
                    &&& passed > limit ==> decision == WaitView::Finished(
                        Err(
                            ErrorView::Timeout(
                                "Timeout waiting for verification after "@ + duration_text(passed),
                            ),
                        ),
                    )
                },
                Ok(verdict) => decision == WaitView::Finished(Ok(verdict)),
            }
        }),
{
}

} // verus!
