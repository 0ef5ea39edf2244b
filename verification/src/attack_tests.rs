//! Scenarios in which the verifier is attacked, and a report on how it fared.
pub use crate::attack_checks::{
    test_cost_fraud_attack, test_escalating_attack, test_escalating_attack_at,
    test_format_injection_attack, test_format_injection_attack_at, test_hybrid_attack,
    test_hybrid_attack_at, test_resource_exhaustion_attack, test_resource_inflation_attack,
    test_slashing_mechanism, test_slashing_mechanism_at, test_timestamp_manipulation_attack,
    test_timestamp_manipulation_attack_at,
};
#[allow(unused_imports)]
use crate::attack_checks::{
    cost_fraud_report, escalating_levels, escalation_report, exhausting_usage,
    exhaustion_report, fair_usage, hybrid_offenses, hybrid_report, inflated_usage,
    inflation_report, injected_batch, injection_report, noticed_stages, shifted_time_report,
    slashing_report,
};
use crate::command::{CommandResult, ExeScriptCommandResult};
#[allow(unused_imports)]
use crate::command::CommandView;
#[allow(unused_imports)]
use crate::consensus::{agreed, count, hashes_of, lemma_count_bound};
use crate::fixed::{push_rounded, Decimal};
#[allow(unused_imports)]
use crate::fixed::rounded_text;
use crate::node::{create_node_id, NodeId};
#[allow(unused_imports)]
use crate::node::{named_node, node_text};
use crate::offense::{OffenseContext, OffenseSeverity, OffenseType};
#[allow(unused_imports)]
use crate::offense::{severity_text, ContextView, OffenseView};
#[allow(unused_imports)]
use crate::ordered_map::{
    find, keys_distinct, law_lookup_finds_what_is_listed, lemma_find_at, lookup, upsert,
};
use crate::result_collector::{ProviderResult, VerificationResult};
#[allow(unused_imports)]
use crate::result_collector::{
    batch_hash, hashed, law_dissenters_from_a_majority_are_named, status, submitted_batches,
    CollectorView, ProviderView, Submissions, VerificationView,
};
#[allow(unused_imports)]
use crate::result_validator::{cost_check, format_check, usage_check, ValidationView};
use crate::service::{
    RegisterTask, SubmitResult, VerifierService, WaitDecision, WaitForVerification,
};
#[allow(unused_imports)]
use crate::service::{collector_key, empty_collector};
use crate::severity::SeverityEvaluator;
#[allow(unused_imports)]
use crate::severity::{law_remarks_do_not_count, severity};
use crate::text::push_decimal;
#[allow(unused_imports)]
use crate::text::decimal;
use crate::time::{utc_now, DateTime, Duration};
#[allow(unused_imports)]
use crate::time::instant;
use crate::views::duplicate_all;
#[allow(unused_imports)]
use crate::views::{view_opt, views};
use vstd::prelude::*;

verus! {

/// How an attack ended.
#[derive(Debug, PartialEq, Eq)]
pub struct AttackTestResult {
    /// The name of the attack.
    pub test_name: String,
    /// Whether it was noticed.
    pub attack_blocked: bool,
    /// What happened.
    pub details: String,
    /// The providers that were found out.
    pub malicious_providers: Vec<NodeId>,
    /// The number of penalties.
    pub slashing_actions: usize,
}

/// The mathematical value of an [`AttackTestResult`].
pub struct AttackView {
    pub test_name: Seq<char>,
    pub attack_blocked: bool,
    pub details: Seq<char>,
    pub malicious_providers: Seq<Seq<u8>>,
    pub slashing_actions: int,
}

impl View for AttackTestResult {
    type V = AttackView;

    open spec fn view(&self) -> AttackView {
        AttackView {
            test_name: self.test_name@,
            attack_blocked: self.attack_blocked,
            details: self.details@,
            malicious_providers: views(self.malicious_providers@),
            slashing_actions: self.slashing_actions as int,
        }
    }
}

impl Clone for AttackTestResult {
    fn clone(&self) -> (copy: Self)
        ensures
            copy@ == self@,
    {
        AttackTestResult {
            test_name: self.test_name.clone(),
            attack_blocked: self.attack_blocked,
            details: self.details.clone(),
            malicious_providers: duplicate_all(self.malicious_providers.as_slice()),
            slashing_actions: self.slashing_actions,
        }
    }
}

// ---------------------------------------------------------------- scenes

/// A result without output.
pub open spec fn plain_command(
    index: u32,
    result: CommandResult,
    message: Option<Seq<char>>,
    is_batch_finished: bool,
    event_date: DateTime,
) -> CommandView {
    CommandView {
        index,
        result,
        stdout: None,
        stderr: None,
        message,
        is_batch_finished,
        event_date,
    }
}

/// A batch of one command.
pub open spec fn single(result: CommandResult, message: Option<Seq<char>>, date: DateTime) -> Seq<
    CommandView,
> {
    seq![plain_command(0, result, message, true, date)]
}

/// A batch of two commands, of which the first succeeded.
pub open spec fn pair(second: CommandResult, date: DateTime) -> Seq<CommandView> {
    seq![
        plain_command(0, CommandResult::Success, None, false, date),
        plain_command(1, second, None, true, date),
    ]
}

/// What a provider submits for a task.
pub open spec fn handed(
    task_id: Seq<char>,
    provider_id: Seq<u8>,
    results: Seq<CommandView>,
    now: DateTime,
) -> ProviderView {
    ProviderView { provider_id, task_id, batch_id: "batch1"@, results, timestamp: now }
}

/// The address of a numbered provider.
pub open spec fn numbered_node(prefix: Seq<char>, i: int) -> Seq<u8> {
    named_node(prefix + decimal(i as nat))
}

/// What several numbered providers with the same results submit.
pub open spec fn chorus(
    task_id: Seq<char>,
    prefix: Seq<char>,
    n: nat,
    results: Seq<CommandView>,
    now: DateTime,
) -> Seq<ProviderView> {
    Seq::new(n, |i: int| handed(task_id, numbered_node(prefix, i), results, now))
}

/// The submissions that are accepted: the first of each provider.
pub open spec fn accepted(submissions: Seq<ProviderView>) -> Submissions
    decreases submissions.len(),
{
    if submissions.len() == 0 {
        Seq::empty()
    } else {
        let before = accepted(submissions.drop_last());
        let last = submissions.last();
        if lookup(before, last.provider_id) is Some {
            before
        } else {
            before.push((last.provider_id, last))
        }
    }
}

/// The verdict on submissions, where there is one.
pub open spec fn scene_verdict(submissions: Seq<ProviderView>, expected: int) -> Option<
    VerificationView,
> {
    let state = status(accepted(submissions), expected);
    if state is Pending {
        None
    } else {
        Some(state)
    }
}

/// Whether no two providers of a scene share an address, and no two different
/// batches a fingerprint.
pub open spec fn told_apart(scene: Seq<ProviderView>) -> bool {
    &&& forall|i: int, j: int|
        0 <= i < j < scene.len() ==> (#[trigger] scene[i]).provider_id != (
        #[trigger] scene[j]).provider_id
    &&& forall|i: int, j: int|
        0 <= i < scene.len() && 0 <= j < scene.len() && batch_hash((#[trigger] scene[i]).results)
            == batch_hash((#[trigger] scene[j]).results) ==> scene[i].results == scene[j].results
}

/// Submissions by provider.
pub open spec fn by_provider(scene: Seq<ProviderView>) -> Submissions {
    scene.map_values(|result: ProviderView| (result.provider_id, result))
}

/// Where the providers are told apart every submission is accepted.
proof fn lemma_all_accepted(scene: Seq<ProviderView>)
    requires
        forall|i: int, j: int|
            0 <= i < j < scene.len() ==> (#[trigger] scene[i]).provider_id != (
            #[trigger] scene[j]).provider_id,
    ensures
        accepted(scene) == by_provider(scene),
        keys_distinct(by_provider(scene)),
    decreases scene.len(),
{
    let all = by_provider(scene);
    assert forall|i: int, j: int| 0 <= i < j < all.len() implies #[trigger] all[i].0
        != #[trigger] all[j].0 by {
        assert(scene[i].provider_id != scene[j].provider_id);
    }
    if scene.len() > 0 {
        let front = scene.drop_last();
        let last = scene.len() - 1;
        assert forall|i: int, j: int| 0 <= i < j < front.len() implies (
        #[trigger] front[i]).provider_id != (#[trigger] front[j]).provider_id by {
            assert(front[i] == scene[i] && front[j] == scene[j]);
        }
        lemma_all_accepted(front);
        let before = by_provider(front);
        if find(before, scene.last().provider_id) is Some {
            let i = find(before, scene.last().provider_id).unwrap();
            assert(before[i].0 == scene[i].provider_id);
            assert(scene[i].provider_id != scene[last].provider_id);
        }
        assert(all =~= before.push((scene.last().provider_id, scene.last())));
    }
}

/// What the law on dissenters says of a scene.
proof fn lemma_scene_majority(
    scene: Seq<ProviderView>,
    expected: int,
    batch: Seq<CommandView>,
    provider: Seq<u8>,
)
    requires
        told_apart(scene),
        expected <= scene.len() <= usize::MAX,
        2 * count(submitted_batches(by_provider(scene)), batch) > scene.len(),
        3 * count(submitted_batches(by_provider(scene)), batch) <= 2 * scene.len(),
        forall|i: int| 0 <= i < scene.len() ==> (#[trigger] scene[i]).results.len() <= batch.len(),
    ensures
        scene_verdict(scene, expected) matches Some(
            VerificationView::Failed { detected_malicious, .. },
        ) && detected_malicious.no_duplicates() && (detected_malicious.contains(provider)
            <==> exists|i: int|
            0 <= i < scene.len() && (#[trigger] scene[i]).provider_id == provider
                && scene[i].results != batch),
{
    let all = by_provider(scene);
    lemma_all_accepted(scene);
    lemma_count_bound(submitted_batches(all), batch);
    let at = choose|i: int|
        0 <= i < submitted_batches(all).len() && submitted_batches(all)[i] == batch;
    assert(scene[at].results == batch);
    assert forall|i: int|
        0 <= i < all.len() && batch_hash((#[trigger] all[i]).1.results) == batch_hash(
            batch,
        ) implies all[i].1.results == batch by {
        assert(batch_hash(scene[i].results) == batch_hash(scene[at].results));
    }
    assert forall|i: int| 0 <= i < all.len() implies (#[trigger] all[i]).1.results.len()
        <= batch.len() by {
        assert(scene[i].results.len() <= batch.len());
    }
    law_dissenters_from_a_majority_are_named(all, expected, batch, provider);
    if exists|i: int|
        0 <= i < all.len() && (#[trigger] all[i]).0 == provider && all[i].1.results != batch {
        let i = choose|i: int|
            0 <= i < all.len() && (#[trigger] all[i]).0 == provider && all[i].1.results != batch;
        assert(scene[i].provider_id == provider && scene[i].results != batch);
    }
    if exists|i: int|
        0 <= i < scene.len() && (#[trigger] scene[i]).provider_id == provider && scene[i].results
            != batch {
        let i = choose|i: int|
            0 <= i < scene.len() && (#[trigger] scene[i]).provider_id == provider
                && scene[i].results != batch;
        assert(all[i].0 == provider && all[i].1.results != batch);
    }
}

/// A list that holds two items and no others, each once, has two entries.
proof fn lemma_pair(items: Seq<Seq<u8>>, a: Seq<u8>, b: Seq<u8>)
    requires
        items.no_duplicates(),
        a != b,
        forall|x: Seq<u8>| #[trigger] items.contains(x) <==> x == a || x == b,
    ensures
        items.len() == 2,
{
    items.unique_seq_to_set();
    assert(items.to_set() =~= set![a, b]);
}

fn command(
    index: u32,
    result: CommandResult,
    message: Option<String>,
    is_batch_finished: bool,
    event_date: DateTime,
) -> (made: ExeScriptCommandResult)
    ensures
        made@ == plain_command(index, result, view_opt(message), is_batch_finished, event_date),
{
    ExeScriptCommandResult {
        index,
        result,
        stdout: None,
        stderr: None,
        message,
        is_batch_finished,
        event_date,
    }
}

fn single_batch(result: CommandResult, message: Option<String>, date: DateTime) -> (batch: Vec<
    ExeScriptCommandResult,
>)
    ensures
        views(batch@) == single(result, view_opt(message), date),
{
    let mut batch: Vec<ExeScriptCommandResult> = Vec::new();
    let ghost said = view_opt(message);
    batch.push(command(0, result, message, true, date));
    assert(views(batch@) =~= single(result, said, date));
    batch
}

fn pair_batch(second: CommandResult, date: DateTime) -> (batch: Vec<ExeScriptCommandResult>)
    ensures
        views(batch@) == pair(second, date),
{
    let mut batch: Vec<ExeScriptCommandResult> = Vec::new();
    batch.push(command(0, CommandResult::Success, None, false, date));
    batch.push(command(1, second, None, true, date));
    assert(views(batch@) =~= pair(second, date));
    batch
}

fn name_node(prefix: &str, i: usize) -> (id: NodeId)
    ensures
        id@ == numbered_node(prefix@, i as int),
{
    let mut name = prefix.to_string();
    push_decimal(&mut name, i as u128);
    create_node_id(name.as_str())
}

fn hand_in(
    list: &mut Vec<ProviderResult>,
    task_id: &str,
    provider_id: NodeId,
    results: Vec<ExeScriptCommandResult>,
    now: DateTime,
)
    ensures
        views(final(list)@) == views(old(list)@).push(
            handed(task_id@, provider_id@, views(results@), now),
        ),
{
    let result = ProviderResult {
        provider_id,
        task_id: task_id.to_string(),
        batch_id: "batch1".to_string(),
        results,
        timestamp: now,
    };
    let ghost before = views(list@);
    let ghost added = result@;
    list.push(result);
    assert(views(list@) =~= before.push(added));
}

fn hand_in_chorus(
    list: &mut Vec<ProviderResult>,
    task_id: &str,
    prefix: &str,
    n: usize,
    results: &Vec<ExeScriptCommandResult>,
    now: DateTime,
)
    ensures
        views(final(list)@) == views(old(list)@) + chorus(
            task_id@,
            prefix@,
            n as nat,
            views(results@),
            now,
        ),
{
    let ghost before = views(list@);
    let ghost batch = views(results@);
    let mut i: usize = 0;
    assert(views(list@) =~= before + chorus(task_id@, prefix@, 0, batch, now));
    while i < n
        invariant
            i <= n,
            batch == views(results@),
            views(list@) == before + chorus(task_id@, prefix@, i as nat, batch, now),
        decreases n - i,
    {
        let ghost so_far = views(list@);
        let id = name_node(prefix, i);
        hand_in(list, task_id, id, duplicate_all(results.as_slice()), now);
        assert(views(list@) =~= before + chorus(task_id@, prefix@, (i + 1) as nat, batch, now));
        i += 1;
    }
}

proof fn lemma_single_entry(key: Seq<char>, a: CollectorView, b: CollectorView)
    ensures
        lookup(seq![(key, a)], key) == Some(a),
        upsert(seq![(key, a)], key, b) == seq![(key, b)],
{
    lemma_find_at(seq![(key, a)], 0);
    assert(seq![(key, a)][0].0 == key);
    assert(upsert(seq![(key, a)], key, b) =~= seq![(key, b)]);
}

/// Announces a task, hands everything in and asks for the verdict. What is
/// refused is passed over.
fn play(
    task_id: &str,
    expected_providers: usize,
    submissions: &Vec<ProviderResult>,
    now: DateTime,
) -> (verdict: Option<VerificationResult>)
    requires
        forall|i: int|
            0 <= i < submissions@.len() ==> (#[trigger] views(submissions@)[i]).task_id == task_id@
                && views(submissions@)[i].batch_id == "batch1"@,
    ensures
        view_opt(verdict) == scene_verdict(views(submissions@), expected_providers as int),
{
    let ghost all = views(submissions@);
    let ghost key = collector_key(task_id@, "batch1"@);
    let ghost blank = empty_collector(
        task_id@,
        "batch1"@,
        expected_providers as int,
        Some(Duration { nanos: 10_000_000_000 }),
        now,
    );
    let mut service = VerifierService::new(None);
    let registered = service.register_task_at(
        RegisterTask {
            task_id: task_id.to_string(),
            batch_id: "batch1".to_string(),
            expected_providers,
            timeout: Some(Duration::seconds(10)),
        },
        now,
    );
    assert(service@.collectors =~= seq![(key, blank)]);
    let mut i: usize = 0;
    while i < submissions.len()
        invariant
            i <= submissions.len(),
            all == views(submissions@),
            key == collector_key(task_id@, "batch1"@),
            blank.task_id == task_id@,
            blank.batch_id == "batch1"@,
            blank.expected_providers == expected_providers,
            forall|j: int|
                0 <= j < submissions@.len() ==> (#[trigger] all[j]).task_id == task_id@
                    && all[j].batch_id == "batch1"@,
            service@.collectors == seq![
                (key, CollectorView { results: accepted(all.take(i as int)), ..blank }),
            ],
        decreases submissions.len() - i,
    {
        let ghost now_known = CollectorView { results: accepted(all.take(i as int)), ..blank };
        let ghost next_known = CollectorView { results: accepted(all.take(i + 1)), ..blank };
        assert(all.take(i + 1).drop_last() =~= all.take(i as int));
        assert(all.take(i + 1).last() == all[i as int]);
        proof {
            lemma_single_entry(key, now_known, next_known);
        }
        let result = submissions[i].clone();
        let outcome = service.submit_result(SubmitResult { result });
        assert(service@.collectors == seq![(key, next_known)]);
        i += 1;
    }
    assert(all.take(i as int) =~= all);
    proof {
        let known = CollectorView { results: accepted(all), ..blank };
        lemma_single_entry(key, known, known);
    }
    let wait = WaitForVerification {
        task_id: task_id.to_string(),
        batch_id: "batch1".to_string(),
        timeout: Some(Duration::seconds(5)),
    };
    match service.wait_for_verification(&wait, now, now) {
        WaitDecision::Finished(Ok(verdict)) => Some(verdict),
        _ => None,
    }
}

/// The context of a wrong result in a scene.
pub open spec fn scene_context(
    provider: Seq<u8>,
    wrong_hash: Seq<char>,
    correct_hash: Seq<char>,
    offense_type: OffenseView,
    colluding: Seq<Seq<u8>>,
    total: usize,
    malicious: usize,
    time: DateTime,
) -> ContextView {
    ContextView {
        provider_id: provider,
        offense_time: time,
        wrong_result_hash: wrong_hash,
        correct_result_hash: correct_hash,
        offense_type,
        colluding_providers: colluding,
        total_providers: total,
        malicious_count: malicious,
        resource_usage: None,
        cost_info: None,
    }
}

/// How severe an offense is to an evaluator that knows of no other.
pub open spec fn first_severity(context: ContextView) -> OffenseSeverity {
    severity(Seq::empty(), 3600, context)
}

// ---------------------------------------------------------------- collusion

/// What two honest providers and three colluders submit.
pub open spec fn collusion_scene(now: DateTime) -> Seq<ProviderView> {
    chorus("collusion_test"@, "honest_"@, 2, single(CommandResult::Success, None, now), now)
        + chorus("collusion_test"@, "colluder_"@, 3, single(CommandResult::Error, None, now), now)
}

/// How severe the collusion of verified culprits is.
pub open spec fn collusion_severity(
    malicious: Seq<Seq<u8>>,
    hash: Seq<char>,
    expected: usize,
    now: DateTime,
) -> OffenseSeverity {
    if malicious.len() == 0 {
        OffenseSeverity::Moderate
    } else {
        first_severity(
            scene_context(
                malicious[0],
                "wrong_collusion"@,
                hash,
                OffenseView::WrongResult,
                malicious,
                expected,
                malicious.len() as usize,
                now,
            ),
        )
    }
}

/// The providers that a verdict accuses of collusion, and what is said of them.
pub open spec fn collusion_findings(
    verdict: Option<VerificationView>,
    expected: usize,
    now: DateTime,
) -> (Seq<Seq<u8>>, Seq<char>) {
    match verdict {
        Some(
            VerificationView::Verified { malicious_providers, consensus_result_hash, .. },
        ) => (
            malicious_providers,
            "严重程度: "@ + severity_text(
                collusion_severity(malicious_providers, consensus_result_hash, expected, now),
            ) + " (共谋比例: "@ + rounded_text(
                malicious_providers.len() as int * 100,
                expected as nat,
                1,
            ) + "%)"@,
        ),
        Some(VerificationView::Failed { detected_malicious, .. }) => if detected_malicious.len()
            > 0 {
            (
                detected_malicious,
                "共谋攻击已检测: 识别出"@ + decimal(detected_malicious.len()) + "个共谋节点"@,
            )
        } else {
            (Seq::empty(), "共谋攻击: 未达成共识，但未识别出共谋节点"@)
        },
        _ => (Seq::empty(), "等待中"@),
    }
}

/// How a collusion attack ended, given the verdict.
pub open spec fn collusion_report(
    verdict: Option<VerificationView>,
    expected: usize,
    now: DateTime,
) -> AttackView {
    let (malicious, info) = collusion_findings(verdict, expected, now);
    let blocked = malicious.len() >= 3 || verdict matches Some(VerificationView::Failed { .. });
    AttackView {
        test_name: "Collusion Attack"@,
        attack_blocked: blocked,
        details: if blocked {
            "共谋攻击已检测: 识别出3个共谋节点. "@ + info
        } else {
            "共谋攻击成功: 验证器接受了错误结果"@
        },
        malicious_providers: malicious,
        slashing_actions: malicious.len() as int,
    }
}

/// Three colluders among five providers do not get their result through.
pub proof fn law_collusion_is_blocked(now: DateTime)
    requires
        told_apart(collusion_scene(now)),
    ensures
        collusion_report(scene_verdict(collusion_scene(now), 5), 5, now).attack_blocked,
{
    let scene = collusion_scene(now);
    let good = single(CommandResult::Success, None, now);
    let wrong = single(CommandResult::Error, None, now);
    let all = submitted_batches(by_provider(scene));
    assert(good[0].result != wrong[0].result);
    assert(all =~= seq![good, good, wrong, wrong, wrong]);
    assert(count(all, wrong) == 3) by {
        reveal_with_fuel(count, 6);
    }
    lemma_scene_majority(scene, 5, wrong, scene[0].provider_id);
}

fn judge_first(context: &OffenseContext) -> (level: OffenseSeverity)
    ensures
        level == first_severity(context@),
{
    let mut evaluator = SeverityEvaluator::new();
    evaluator.evaluate_severity(context)
}

/// How a collusion attack ended, given the verdict.
pub fn judge_collusion(
    verdict: Option<VerificationResult>,
    expected_providers: usize,
    now: DateTime,
) -> (result: AttackTestResult)
    requires
        expected_providers > 0,
    ensures
        result@ == collusion_report(view_opt(verdict), expected_providers, now),
{
    let ghost given = view_opt(verdict);
    let mut failed = false;
    let (malicious_providers, info) = match verdict {
        Some(
            VerificationResult::Verified { malicious_providers, consensus_result_hash, .. },
        ) => {
            let level = if malicious_providers.len() == 0 {
                OffenseSeverity::Moderate
            } else {
                let context = OffenseContext {
                    provider_id: malicious_providers[0],
                    offense_time: now,
                    wrong_result_hash: "wrong_collusion".to_string(),
                    correct_result_hash: consensus_result_hash,
                    offense_type: OffenseType::WrongResult,
                    colluding_providers: duplicate_all(malicious_providers.as_slice()),
                    total_providers: expected_providers,
                    malicious_count: malicious_providers.len(),
                    resource_usage: None,
                    cost_info: None,
                };
                judge_first(&context)
            };
            let mut info = "严重程度: ".to_string();
            let name = level.to_text();
            info.append(name.as_str());
            info.append(" (共谋比例: ");
            push_rounded(
                &mut info,
                malicious_providers.len() as i128 * 100,
                expected_providers as u128,
                1,
            );
            info.append("%)");
            (malicious_providers, info)
        },
        Some(VerificationResult::Failed { detected_malicious, .. }) => {
            failed = true;
            if detected_malicious.len() > 0 {
                let mut info = "共谋攻击已检测: 识别出".to_string();
                push_decimal(&mut info, detected_malicious.len() as u128);
                info.append("个共谋节点");
                (detected_malicious, info)
            } else {
                assert(views(detected_malicious@) =~= Seq::<Seq<u8>>::empty());
                (detected_malicious, "共谋攻击: 未达成共识，但未识别出共谋节点".to_string())
            }
        },
        _ => {
            let none: Vec<NodeId> = Vec::new();
            assert(views(none@) =~= Seq::<Seq<u8>>::empty());
            (none, "等待中".to_string())
        },
    };
    assert((views(malicious_providers@), info@) == collusion_findings(
        given,
        expected_providers,
        now,
    ));
    let attack_blocked = malicious_providers.len() >= 3 || failed;
    let details = if attack_blocked {
        let mut text = "共谋攻击已检测: 识别出3个共谋节点. ".to_string();
        text.append(info.as_str());
        text
    } else {
        "共谋攻击成功: 验证器接受了错误结果".to_string()
    };
    let slashing_actions: usize = malicious_providers.len();
    AttackTestResult {
        test_name: "Collusion Attack".to_string(),
        attack_blocked,
        details,
        malicious_providers,
        slashing_actions,
    }
}

/// Several providers submit the same wrong result, at the current time.
pub fn test_collusion_attack() -> (result: AttackTestResult)
    ensures
        exists|now: DateTime|
            result@ == collusion_report(
                #[trigger] scene_verdict(collusion_scene(now), 5),
                5,
                now,
            ) && (told_apart(collusion_scene(now)) ==> result@.attack_blocked),
{
    let now = utc_now();
    test_collusion_attack_at(now)
}

/// Several providers submit the same wrong result, at the time `now`.
pub fn test_collusion_attack_at(now: DateTime) -> (result: AttackTestResult)
    ensures
        result@ == collusion_report(scene_verdict(collusion_scene(now), 5), 5, now),
        told_apart(collusion_scene(now)) ==> result@.attack_blocked,
{
    proof {
        if told_apart(collusion_scene(now)) {
            law_collusion_is_blocked(now);
        }
    }
    let correct = single_batch(CommandResult::Success, None, now);
    let wrong = single_batch(CommandResult::Error, None, now);
    let mut list: Vec<ProviderResult> = Vec::new();
    hand_in_chorus(&mut list, "collusion_test", "honest_", 2, &correct, now);
    hand_in_chorus(&mut list, "collusion_test", "colluder_", 3, &wrong, now);
    assert(views(list@) =~= collusion_scene(now));
    let verdict = play("collusion_test", 5, &list, now);
    judge_collusion(verdict, 5, now)
}

// ---------------------------------------------------------------- random errors

/// What a provider with a random error submits.
pub open spec fn faulty(i: int, now: DateTime) -> ProviderView {
    handed(
        "random_error_test"@,
        numbered_node("error_provider_"@, i),
        single(CommandResult::Error, Some("error"@ + decimal((i + 1) as nat)), now),
        now,
    )
}

/// What four honest providers and two with random errors submit.
pub open spec fn random_error_scene(now: DateTime) -> Seq<ProviderView> {
    chorus("random_error_test"@, "honest_"@, 4, single(CommandResult::Success, None, now), now)
        + seq![faulty(0, now), faulty(1, now)]
}

/// How severe a random error is.
pub open spec fn random_error_severity(
    malicious: Seq<Seq<u8>>,
    hash: Seq<char>,
    expected: usize,
    now: DateTime,
) -> OffenseSeverity {
    if malicious.len() == 0 {
        OffenseSeverity::Minor
    } else {
        first_severity(
            scene_context(
                malicious[0],
                "error_"@ + node_text(malicious[0]),
                hash,
                OffenseView::WrongResult,
                Seq::empty(),
                expected,
                malicious.len() as usize,
                now,
            ),
        )
    }
}

/// What is said of random errors.
pub open spec fn random_error_info(
    malicious: Seq<Seq<u8>>,
    hash: Seq<char>,
    expected: usize,
    now: DateTime,
) -> Seq<char> {
    "严重程度: "@ + severity_text(random_error_severity(malicious, hash, expected, now))
        + " (随机错误，无共谋)"@
}

/// How random errors were dealt with, given the verdict. Those are found out that
/// a verdict names, with or without a consensus.
pub open spec fn random_error_report(
    verdict: Option<VerificationView>,
    expected: usize,
    now: DateTime,
) -> AttackView {
    let (malicious, info) = match verdict {
        Some(
            VerificationView::Verified { malicious_providers, consensus_result_hash, .. },
        ) => (
            malicious_providers,
            random_error_info(malicious_providers, consensus_result_hash, expected, now),
        ),
        Some(VerificationView::Failed { detected_malicious, .. }) => (
            detected_malicious,
            random_error_info(detected_malicious, Seq::empty(), expected, now),
        ),
        _ => (Seq::empty(), Seq::empty()),
    };
    let blocked = malicious.len() == 2;
    AttackView {
        test_name: "Random Error Attack"@,
        attack_blocked: blocked,
        details: if blocked {
            "随机错误攻击已检测: 识别出2个错误节点. "@ + info
        } else {
            "随机错误攻击: 部分错误未检测到"@
        },
        malicious_providers: malicious,
        slashing_actions: malicious.len() as int,
    }
}

/// Whether exactly the two providers with random errors were found out.
pub open spec fn random_errors_found(report: AttackView) -> bool {
    &&& report.attack_blocked
    &&& report.slashing_actions == 2
    &&& report.malicious_providers.len() == 2
    &&& forall|provider: Seq<u8>| #[trigger]
        report.malicious_providers.contains(provider) <==> provider == numbered_node(
            "error_provider_"@,
            0,
        ) || provider == numbered_node("error_provider_"@, 1)
}

/// Exactly the two providers with random errors are found out.
pub proof fn law_random_errors_are_identified(now: DateTime)
    requires
        told_apart(random_error_scene(now)),
    ensures
        random_errors_found(
            random_error_report(scene_verdict(random_error_scene(now), 6), 6, now),
        ),
{
    let scene = random_error_scene(now);
    let batch = single(CommandResult::Success, None, now);
    let first = faulty(0, now);
    let second = faulty(1, now);
    let all = submitted_batches(by_provider(scene));
    assert(scene[4] == first && scene[5] == second);
    assert(first.results[0].result != batch[0].result);
    assert(second.results[0].result != batch[0].result);
    assert(all =~= seq![batch, batch, batch, batch, first.results, second.results]);
    assert(count(all, batch) == 4) by {
        reveal_with_fuel(count, 7);
    }
    let report = random_error_report(scene_verdict(scene, 6), 6, now);
    let named = report.malicious_providers;
    assert forall|provider: Seq<u8>| #[trigger] named.contains(provider) <==> provider
        == first.provider_id || provider == second.provider_id by {
        lemma_scene_majority(scene, 6, batch, provider);
        if named.contains(provider) {
            let i = choose|i: int|
                0 <= i < scene.len() && (#[trigger] scene[i]).provider_id == provider
                    && scene[i].results != batch;
            assert(all[i] == scene[i].results);
        }
    }
    lemma_scene_majority(scene, 6, batch, first.provider_id);
    assert(scene[4].provider_id != scene[5].provider_id);
    lemma_pair(named, first.provider_id, second.provider_id);
}

/// How random errors were dealt with, given the verdict.
pub fn judge_random_errors(
    verdict: Option<VerificationResult>,
    expected_providers: usize,
    now: DateTime,
) -> (result: AttackTestResult)
    ensures
        result@ == random_error_report(view_opt(verdict), expected_providers, now),
{
    let (malicious_providers, info) = match verdict {
        Some(
            VerificationResult::Verified { malicious_providers, consensus_result_hash, .. },
        ) => {
            let info = describe_random_errors(
                &malicious_providers,
                consensus_result_hash,
                expected_providers,
                now,
            );
            (malicious_providers, info)
        },
        Some(VerificationResult::Failed { detected_malicious, .. }) => {
            let unknown = String::new();
            assert(unknown@ =~= Seq::empty());
            let info = describe_random_errors(
                &detected_malicious,
                unknown,
                expected_providers,
                now,
            );
            (detected_malicious, info)
        },
        _ => {
            let none: Vec<NodeId> = Vec::new();
            assert(views(none@) =~= Seq::<Seq<u8>>::empty());
            (none, String::new())
        },
    };
    let attack_blocked = malicious_providers.len() == 2;
    let details = if attack_blocked {
        let mut text = "随机错误攻击已检测: 识别出2个错误节点. ".to_string();
        text.append(info.as_str());
        text
    } else {
        "随机错误攻击: 部分错误未检测到".to_string()
    };
    let slashing_actions: usize = malicious_providers.len();
    AttackTestResult {
        test_name: "Random Error Attack".to_string(),
        attack_blocked,
        details,
        malicious_providers,
        slashing_actions,
    }
}

fn describe_random_errors(
    malicious_providers: &Vec<NodeId>,
    correct_result_hash: String,
    expected_providers: usize,
    now: DateTime,
) -> (info: String)
    ensures
        info@ == random_error_info(
            views(malicious_providers@),
            correct_result_hash@,
            expected_providers,
            now,
        ),
{
    let level = if malicious_providers.len() == 0 {
        OffenseSeverity::Minor
    } else {
        let culprit = malicious_providers[0];
        let mut wrong_result_hash = "error_".to_string();
        let name = culprit.to_text();
        wrong_result_hash.append(name.as_str());
        let context = OffenseContext {
            provider_id: culprit,
            offense_time: now,
            wrong_result_hash,
            correct_result_hash,
            offense_type: OffenseType::WrongResult,
            colluding_providers: Vec::new(),
            total_providers: expected_providers,
            malicious_count: malicious_providers.len(),
            resource_usage: None,
            cost_info: None,
        };
        assert(context@.colluding_providers =~= Seq::<Seq<u8>>::empty());
        judge_first(&context)
    };
    let mut info = "严重程度: ".to_string();
    let name = level.to_text();
    info.append(name.as_str());
    info.append(" (随机错误，无共谋)");
    info
}

/// Some providers return random errors, at the current time.
pub fn test_random_error_attack() -> (result: AttackTestResult)
    ensures
        exists|now: DateTime|
            result@ == random_error_report(
                #[trigger] scene_verdict(random_error_scene(now), 6),
                6,
                now,
            ) && (told_apart(random_error_scene(now)) ==> random_errors_found(result@)),
{
    let now = utc_now();
    test_random_error_attack_at(now)
}

/// Some providers return random errors, at the time `now`.
pub fn test_random_error_attack_at(now: DateTime) -> (result: AttackTestResult)
    ensures
        result@ == random_error_report(scene_verdict(random_error_scene(now), 6), 6, now),
        told_apart(random_error_scene(now)) ==> random_errors_found(result@),
{
    proof {
        if told_apart(random_error_scene(now)) {
            law_random_errors_are_identified(now);
        }
    }
    let correct = single_batch(CommandResult::Success, None, now);
    let mut list: Vec<ProviderResult> = Vec::new();
    hand_in_chorus(&mut list, "random_error_test", "honest_", 4, &correct, now);
    let ghost honest = views(list@);
    let mut i: usize = 0;
    while i < 2
        invariant
            i <= 2,
            views(list@) == honest + seq![faulty(0, now), faulty(1, now)].take(i as int),
        decreases 2 - i,
    {
        let mut message = "error".to_string();
        push_decimal(&mut message, i as u128 + 1);
        let batch = single_batch(CommandResult::Error, Some(message), now);
        let id = name_node("error_provider_", i);
        hand_in(&mut list, "random_error_test", id, batch, now);
        assert(views(list@) =~= honest + seq![faulty(0, now), faulty(1, now)].take(i + 1));
        i += 1;
    }
    assert(views(list@) =~= random_error_scene(now));
    let verdict = play("random_error_test", 6, &list, now);
    judge_random_errors(verdict, 6, now)
}

// ---------------------------------------------------------------- too few honest

/// The time of the wrong results: half past ten on 30 December 2023.
pub open spec fn stale_date() -> DateTime {
    instant(1_703_932_200, 0)
}

/// What a provider with a wrong result of its own submits.
pub open spec fn liar(i: int, now: DateTime) -> ProviderView {
    handed(
        "insufficient_honest_test"@,
        numbered_node("malicious_"@, i),
        single(CommandResult::Error, Some("wrong_"@ + decimal(i as nat)), stale_date()),
        now,
    )
}

/// What one honest provider and four others submit.
pub open spec fn insufficient_honest_scene(now: DateTime) -> Seq<ProviderView> {
    seq![
        handed(
            "insufficient_honest_test"@,
            named_node("honest_0"@),
            single(CommandResult::Success, None, now),
            now,
        ),
    ] + Seq::new(4, |i: int| liar(i, now))
}

/// What became of a task with too few honest providers, given the verdict.
pub open spec fn insufficient_honest_report(verdict: Option<VerificationView>) -> AttackView {
    let blocked = verdict matches Some(VerificationView::Failed { .. });
    AttackView {
        test_name: "Insufficient Honest Providers"@,
        attack_blocked: blocked,
        details: if blocked {
            "Attack blocked: No consensus reached due to insufficient honest providers"@
        } else {
            "Attack succeeded: Consensus reached with insufficient honest providers"@
        },
        malicious_providers: Seq::empty(),
        slashing_actions: 0,
    }
}

/// Where one honest provider meets four that each say something else, nothing is
/// accepted.
pub proof fn law_too_few_honest_is_blocked(now: DateTime)
    requires
        told_apart(insufficient_honest_scene(now)),
    ensures
        insufficient_honest_report(
            scene_verdict(insufficient_honest_scene(now), 5),
        ).attack_blocked,
{
    let scene = insufficient_honest_scene(now);
    let all = by_provider(scene);
    let hashes = hashes_of(hashed(all));
    lemma_all_accepted(scene);
    assert forall|i: int, j: int| 0 <= i < j < 5 implies #[trigger] hashes[i]
        != #[trigger] hashes[j] by {
        assert(hashes[i] == batch_hash(scene[i].results));
        assert(hashes[j] == batch_hash(scene[j].results));
        assert(scene[j] == liar(j - 1, now));
        assert(scene[j].results[0].result == CommandResult::Error);
        if i == 0 {
            assert(scene[0].results[0].result == CommandResult::Success);
        } else {
            assert(scene[i] == liar(i - 1, now));
            lemma_digits_differ((i - 1) as nat, (j - 1) as nat);
            let a = "wrong_"@ + decimal((i - 1) as nat);
            let b = "wrong_"@ + decimal((j - 1) as nat);
            assert(a.last() != b.last());
            assert(scene[i].results[0].message == Some(a));
            assert(scene[j].results[0].message == Some(b));
        }
    }
    assert forall|hash: Seq<char>| !agreed(hashes, hash) by {
        assert(count(hashes, hash) <= 1) by {
            reveal_with_fuel(count, 6);
            let h = hashes;
            assert(h.drop_last().drop_last().drop_last().drop_last().drop_last().len() == 0);
            assert(h[0] != h[1] && h[0] != h[2] && h[0] != h[3] && h[0] != h[4]);
            assert(h[1] != h[2] && h[1] != h[3] && h[1] != h[4]);
            assert(h[2] != h[3] && h[2] != h[4] && h[3] != h[4]);
        }
    }
}

/// Different digits are written differently.
proof fn lemma_digits_differ(a: nat, b: nat)
    requires
        a < b < 10,
    ensures
        decimal(a).len() == 1,
        decimal(b).len() == 1,
        decimal(a)[0] != decimal(b)[0],
{
    reveal_strlit("0");
    reveal_strlit("1");
    reveal_strlit("2");
    reveal_strlit("3");
    reveal_strlit("4");
    reveal_strlit("5");
    reveal_strlit("6");
    reveal_strlit("7");
    reveal_strlit("8");
    reveal_strlit("9");
}

/// What became of a task with too few honest providers, given the verdict.
pub fn judge_insufficient_honest(verdict: Option<VerificationResult>) -> (result: AttackTestResult)
    ensures
        result@ == insufficient_honest_report(view_opt(verdict)),
{
    let attack_blocked = match verdict {
        Some(VerificationResult::Failed { .. }) => true,
        _ => false,
    };
    let details = if attack_blocked {
        "Attack blocked: No consensus reached due to insufficient honest providers".to_string()
    } else {
        "Attack succeeded: Consensus reached with insufficient honest providers".to_string()
    };
    let result = AttackTestResult {
        test_name: "Insufficient Honest Providers".to_string(),
        attack_blocked,
        details,
        malicious_providers: Vec::new(),
        slashing_actions: 0,
    };
    assert(result@.malicious_providers =~= Seq::<Seq<u8>>::empty());
    result
}

/// Fewer than two thirds of the providers are honest, at the current time.
pub fn test_insufficient_honest_providers() -> (result: AttackTestResult)
    ensures
        exists|now: DateTime|
            result@ == insufficient_honest_report(
                #[trigger] scene_verdict(insufficient_honest_scene(now), 5),
            ) && (told_apart(insufficient_honest_scene(now)) ==> result@.attack_blocked),
{
    let now = utc_now();
    test_insufficient_honest_providers_at(now)
}

/// Fewer than two thirds of the providers are honest, at the time `now`.
pub fn test_insufficient_honest_providers_at(now: DateTime) -> (result: AttackTestResult)
    ensures
        result@ == insufficient_honest_report(scene_verdict(insufficient_honest_scene(now), 5)),
        told_apart(insufficient_honest_scene(now)) ==> result@.attack_blocked,
{
    proof {
        if told_apart(insufficient_honest_scene(now)) {
            law_too_few_honest_is_blocked(now);
        }
    }
    let date = match DateTime::from_timestamp(1_703_932_200, 0) {
        Some(date) => date,
        None => now,
    };
    assert(date == stale_date());
    let mut list: Vec<ProviderResult> = Vec::new();
    let correct = single_batch(CommandResult::Success, None, now);
    let honest = create_node_id("honest_0");
    hand_in(&mut list, "insufficient_honest_test", honest, correct, now);
    let ghost first = views(list@);
    let ghost liars = Seq::new(4, |i: int| liar(i, now));
    assert(first + liars.take(0) =~= first);
    let mut i: usize = 0;
    while i < 4
        invariant
            i <= 4,
            date == stale_date(),
            liars == Seq::new(4, |i: int| liar(i, now)),
            views(list@) == first + liars.take(i as int),
        decreases 4 - i,
    {
        let mut message = "wrong_".to_string();
        push_decimal(&mut message, i as u128);
        let batch = single_batch(CommandResult::Error, Some(message), date);
        let id = name_node("malicious_", i);
        hand_in(&mut list, "insufficient_honest_test", id, batch, now);
        assert(views(list@) =~= first + liars.take(i + 1));
        i += 1;
    }
    assert(views(list@) =~= insufficient_honest_scene(now));
    let verdict = play("insufficient_honest_test", 5, &list, now);
    judge_insufficient_honest(verdict)
}

// ---------------------------------------------------------------- tampering

/// What three honest providers and two that changed one command submit.
pub open spec fn partial_tampering_scene(now: DateTime) -> Seq<ProviderView> {
    chorus("partial_tampering_test"@, "honest_"@, 3, pair(CommandResult::Success, now), now)
        + chorus("partial_tampering_test"@, "tamperer_"@, 2, pair(CommandResult::Error, now), now)
}

/// What became of partial tampering, given the verdict. Tampering is detected
/// where a verdict with a consensus names providers; those that a failed
/// verdict names are left aside.
pub open spec fn partial_tampering_report(verdict: Option<VerificationView>) -> AttackView {
    let (malicious, details) = match verdict {
        Some(VerificationView::Verified { malicious_providers, .. }) => (
            malicious_providers,
            "部分结果篡改攻击已检测: 识别出篡改的Provider"@,
        ),
        _ => (Seq::empty(), "部分结果篡改攻击: 未检测到篡改"@),
    };
    AttackView {
        test_name: "Partial Result Tampering"@,
        attack_blocked: malicious.len() > 0,
        details,
        malicious_providers: malicious,
        slashing_actions: malicious.len() as int,
    }
}

/// Whether partial tampering was not detected and nobody was named.
pub open spec fn tampering_missed(report: AttackView) -> bool {
    &&& !report.attack_blocked
    &&& report.slashing_actions == 0
    &&& report.malicious_providers == Seq::<Seq<u8>>::empty()
    &&& report.details == "部分结果篡改攻击: 未检测到篡改"@
}

/// Two providers of five that change a command leave no consensus. The failed
/// verdict names exactly these two; the report, which counts on a consensus,
/// names nobody.
pub proof fn law_tamperers_are_named_without_consensus(now: DateTime)
    requires
        told_apart(partial_tampering_scene(now)),
    ensures
        scene_verdict(partial_tampering_scene(now), 5) matches Some(
            VerificationView::Failed { detected_malicious, .. },
        ) && detected_malicious.len() == 2 && detected_malicious.contains(
            numbered_node("tamperer_"@, 0),
        ) && detected_malicious.contains(numbered_node("tamperer_"@, 1)),
        numbered_node("tamperer_"@, 0) != numbered_node("tamperer_"@, 1),
        tampering_missed(
            partial_tampering_report(scene_verdict(partial_tampering_scene(now), 5)),
        ),
{
    let scene = partial_tampering_scene(now);
    let batch = pair(CommandResult::Success, now);
    let changed = pair(CommandResult::Error, now);
    let first = numbered_node("tamperer_"@, 0);
    let second = numbered_node("tamperer_"@, 1);
    let all = submitted_batches(by_provider(scene));
    assert(scene[3].provider_id == first && scene[4].provider_id == second);
    assert(changed[1].result != batch[1].result);
    assert(all =~= seq![batch, batch, batch, changed, changed]);
    assert(count(all, batch) == 3) by {
        reveal_with_fuel(count, 6);
    }
    lemma_scene_majority(scene, 5, batch, first);
    if let Some(VerificationView::Failed { detected_malicious: named, .. }) = scene_verdict(
        scene,
        5,
    ) {
        assert forall|provider: Seq<u8>| #[trigger] named.contains(provider) <==> provider == first
            || provider == second by {
            lemma_scene_majority(scene, 5, batch, provider);
            if named.contains(provider) {
                let i = choose|i: int|
                    0 <= i < scene.len() && (#[trigger] scene[i]).provider_id == provider
                        && scene[i].results != batch;
                assert(all[i] == scene[i].results);
            }
            assert(scene[3].results != batch && scene[4].results != batch);
        }
        assert(scene[3].provider_id != scene[4].provider_id);
        lemma_pair(named, first, second);
    }
}

/// What became of partial tampering, given the verdict.
pub fn judge_partial_tampering(verdict: Option<VerificationResult>) -> (result: AttackTestResult)
    ensures
        result@ == partial_tampering_report(view_opt(verdict)),
{
    let (malicious_providers, details) = match verdict {
        Some(VerificationResult::Verified { malicious_providers, .. }) => (
            malicious_providers,
            "部分结果篡改攻击已检测: 识别出篡改的Provider".to_string(),
        ),
        _ => {
            let none: Vec<NodeId> = Vec::new();
            assert(views(none@) =~= Seq::<Seq<u8>>::empty());
            (none, "部分结果篡改攻击: 未检测到篡改".to_string())
        },
    };
    let slashing_actions: usize = malicious_providers.len();
    AttackTestResult {
        test_name: "Partial Result Tampering".to_string(),
        attack_blocked: slashing_actions > 0,
        details,
        malicious_providers,
        slashing_actions,
    }
}

/// Some providers change one command of their results, at the current time.
pub fn test_partial_result_tampering() -> (result: AttackTestResult)
    ensures
        exists|now: DateTime|
            result@ == partial_tampering_report(
                #[trigger] scene_verdict(partial_tampering_scene(now), 5),
            ) && (told_apart(partial_tampering_scene(now)) ==> tampering_missed(result@)),
{
    let now = utc_now();
    test_partial_result_tampering_at(now)
}

/// Some providers change one command of their results, at the time `now`.
pub fn test_partial_result_tampering_at(now: DateTime) -> (result: AttackTestResult)
    ensures
        result@ == partial_tampering_report(scene_verdict(partial_tampering_scene(now), 5)),
        told_apart(partial_tampering_scene(now)) ==> tampering_missed(result@),
{
    proof {
        if told_apart(partial_tampering_scene(now)) {
            law_tamperers_are_named_without_consensus(now);
        }
    }
    let correct = pair_batch(CommandResult::Success, now);
    let tampered = pair_batch(CommandResult::Error, now);
    let mut list: Vec<ProviderResult> = Vec::new();
    hand_in_chorus(&mut list, "partial_tampering_test", "honest_", 3, &correct, now);
    hand_in_chorus(&mut list, "partial_tampering_test", "tamperer_", 2, &tampered, now);
    assert(views(list@) =~= partial_tampering_scene(now));
    let verdict = play("partial_tampering_test", 5, &list, now);
    judge_partial_tampering(verdict)
}

// ---------------------------------------------------------------- all

/// How all attacks end at the time `now`.
pub open spec fn all_attacks(now: DateTime) -> Seq<AttackView> {
    seq![
        collusion_report(scene_verdict(collusion_scene(now), 5), 5, now),
        random_error_report(scene_verdict(random_error_scene(now), 6), 6, now),
        insufficient_honest_report(scene_verdict(insufficient_honest_scene(now), 5)),
        slashing_report(now),
        inflation_report(
            usage_check(inflated_usage(), fair_usage(), Decimal { micros: 100_000 }),
        ),
        cost_fraud_report(
            cost_check(
                Decimal { micros: 1_150_000 },
                Decimal { micros: 1_000_000 },
                Decimal { micros: 50_000 },
            ),
            Decimal { micros: 1_150_000 },
            Decimal { micros: 1_000_000 },
        ),
        shifted_time_report(now),
        escalation_report(
            noticed_stages(),
            escalating_levels(now, 3),
            named_node("escalating_attacker"@),
        ),
        hybrid_report(hybrid_offenses(now)),
        partial_tampering_report(scene_verdict(partial_tampering_scene(now), 5)),
        exhaustion_report(
            usage_check(exhausting_usage(), fair_usage(), Decimal { micros: 100_000 }),
        ),
        injection_report(format_check(injected_batch(now), now)),
    ]
}

/// Plays all attacks at the current time.
pub fn run_all_attack_tests() -> (results: Vec<AttackTestResult>)
    ensures
        exists|now: DateTime| views(results@) == #[trigger] all_attacks(now),
{
    let now = utc_now();
    run_all_attack_tests_at(now)
}

fn add_result(
    results: &mut Vec<AttackTestResult>,
    result: AttackTestResult,
    Ghost(all): Ghost<Seq<AttackView>>,
)
    requires
        views(old(results)@) == all.take(old(results)@.len() as int),
        old(results)@.len() < all.len(),
        result@ == all[old(results)@.len() as int],
    ensures
        final(results)@.len() == old(results)@.len() + 1,
        views(final(results)@) == all.take(final(results)@.len() as int),
{
    let ghost before = views(results@);
    let ghost added = result@;
    results.push(result);
    assert(views(results@) =~= before.push(added));
    assert(views(results@) =~= all.take(results@.len() as int));
}

/// Plays all attacks at the time `now`.
#[verifier::spinoff_prover]
pub fn run_all_attack_tests_at(now: DateTime) -> (results: Vec<AttackTestResult>)
    ensures
        views(results@) == all_attacks(now),
{
    let ghost all = all_attacks(now);
    let mut results: Vec<AttackTestResult> = Vec::new();
    assert(views(results@) =~= all.take(0));
    add_result(&mut results, test_collusion_attack_at(now), Ghost(all));
    add_result(&mut results, test_random_error_attack_at(now), Ghost(all));
    add_result(&mut results, test_insufficient_honest_providers_at(now), Ghost(all));
    add_result(&mut results, test_slashing_mechanism_at(now), Ghost(all));
    add_result(&mut results, test_resource_inflation_attack(), Ghost(all));
    add_result(&mut results, test_cost_fraud_attack(), Ghost(all));
    add_result(&mut results, test_timestamp_manipulation_attack_at(now), Ghost(all));
    add_result(&mut results, test_escalating_attack_at(now), Ghost(all));
    add_result(&mut results, test_hybrid_attack_at(now), Ghost(all));
    add_result(&mut results, test_partial_result_tampering_at(now), Ghost(all));
    add_result(&mut results, test_resource_exhaustion_attack(), Ghost(all));
    add_result(&mut results, test_format_injection_attack_at(now), Ghost(all));
    assert(all.take(12) =~= all);
    results
}

/// What the report says of one attack.
pub open spec fn report_entry(result: AttackView) -> Seq<char> {
    "Test: "@ + result.test_name + "\n  Status: "@ + (if result.attack_blocked {
        "BLOCKED"@
    } else {
        "SUCCEEDED"@
    }) + "\n  Details: "@ + result.details + "\n  Malicious Providers Identified: "@ + decimal(
        result.malicious_providers.len(),
    ) + "\n  Slashing Actions: "@ + decimal(result.slashing_actions as nat) + "\n\n"@
}

/// What the report says of several attacks.
pub open spec fn report_entries(results: Seq<AttackView>) -> Seq<char>
    decreases results.len(),
{
    if results.len() == 0 {
        Seq::empty()
    } else {
        report_entries(results.drop_last()) + report_entry(results.last())
    }
}

/// The number of attacks that were blocked.
pub open spec fn blocked_attacks(results: Seq<AttackView>) -> nat
    decreases results.len(),
{
    if results.len() == 0 {
        0
    } else {
        blocked_attacks(results.drop_last()) + if results.last().attack_blocked {
            1nat
        } else {
            0nat
        }
    }
}

/// The report on attacks.
pub open spec fn report_text(results: Seq<AttackView>) -> Seq<char> {
    let total = results.len();
    let blocked = blocked_attacks(results);
    "=== Verifier Attack Test Report ===\n\n"@ + report_entries(results)
        + "Summary:\n  Total Tests: "@ + decimal(total) + "\n  Attacks Blocked: "@ + decimal(
        blocked,
    ) + "\n  Attacks Succeeded: "@ + decimal((total - blocked) as nat) + "\n  Success Rate: "@ + (
    if total == 0 {
        "NaN"@
    } else {
        rounded_text(blocked as int * 100, total, 1)
    }) + "%\n"@
}

fn push_entry(report: &mut String, result: &AttackTestResult)
    ensures
        final(report)@ == old(report)@ + report_entry(result@),
{
    let ghost before = report@;
    report.append("Test: ");
    report.append(result.test_name.as_str());
    report.append("\n  Status: ");
    if result.attack_blocked {
        report.append("BLOCKED");
    } else {
        report.append("SUCCEEDED");
    }
    report.append("\n  Details: ");
    report.append(result.details.as_str());
    report.append("\n  Malicious Providers Identified: ");
    push_decimal(report, result.malicious_providers.len() as u128);
    report.append("\n  Slashing Actions: ");
    push_decimal(report, result.slashing_actions as u128);
    report.append("\n\n");
    assert(report@ =~= before + report_entry(result@));
}

/// The report on attacks.
pub fn generate_test_report(results: &[AttackTestResult]) -> (report: String)
    ensures
        report@ == report_text(views(results@)),
{
    let ghost all = views(results@);
    let mut report = "=== Verifier Attack Test Report ===\n\n".to_string();
    let ghost head = report@;
    assert(head + report_entries(all.take(0)) =~= head);
    let mut blocked: usize = 0;
    let mut i: usize = 0;
    while i < results.len()
        invariant
            i <= results.len(),
            all == views(results@),
            blocked <= i,
            blocked == blocked_attacks(all.take(i as int)),
            report@ == head + report_entries(all.take(i as int)),
        decreases results.len() - i,
    {
        assert(all.take(i + 1).drop_last() =~= all.take(i as int));
        assert(all.take(i + 1).last() == results@[i as int]@);
        if results[i].attack_blocked {
            blocked += 1;
        }
        push_entry(&mut report, &results[i]);
        assert(report@ =~= head + report_entries(all.take(i + 1)));
        i += 1;
    }
    assert(all.take(i as int) =~= all);
    let total: usize = results.len();
    report.append("Summary:\n  Total Tests: ");
    push_decimal(&mut report, total as u128);
    report.append("\n  Attacks Blocked: ");
    push_decimal(&mut report, blocked as u128);
    report.append("\n  Attacks Succeeded: ");
    push_decimal(&mut report, (total - blocked) as u128);
    report.append("\n  Success Rate: ");
    if total == 0 {
        report.append("NaN");
    } else {
        push_rounded(&mut report, blocked as i128 * 100, total as u128, 1);
    }
    report.append("%\n");
    report
}

// ---------------------------------------------------------------- laws

/// The providers that a verdict accuses, with or without a consensus.
pub open spec fn accused_by(verdict: Option<VerificationView>) -> Seq<Seq<u8>> {
    match verdict {
        Some(VerificationView::Verified { malicious_providers, .. }) => malicious_providers,
        Some(VerificationView::Failed { detected_malicious, .. }) => detected_malicious,
        _ => Seq::empty(),
    }
}

/// A report on collusion or random errors names exactly those that the verdict
/// accuses and counts a penalty for each. Collusion counts as blocked where at
/// least three are accused or no consensus came about, random errors where two
/// are.
pub proof fn law_reports_name_the_accused(
    verdict: Option<VerificationView>,
    expected: usize,
    now: DateTime,
)
    ensures
        ({
            let collusion = collusion_report(verdict, expected, now);
            let errors = random_error_report(verdict, expected, now);
            let accused = accused_by(verdict);
            &&& collusion.malicious_providers == accused
            &&& collusion.slashing_actions == accused.len()
            &&& collusion.attack_blocked <==> accused.len() >= 3 || (verdict is Some
                && verdict.unwrap() is Failed)
            &&& errors.malicious_providers == accused
            &&& errors.slashing_actions == accused.len()
            &&& errors.attack_blocked <==> accused.len() == 2
        }),
{
    if let Some(VerificationView::Failed { detected_malicious, .. }) = verdict {
        if detected_malicious.len() == 0 {
            assert(detected_malicious =~= Seq::empty());
        }
    }
}

/// What a report on collusion or random errors says: the share of the colluders
/// and how severe the offense of the first of them is, how many were found without
/// a consensus, or that the attack was not noticed.
pub proof fn law_reports_say_what_was_found(
    verdict: Option<VerificationView>,
    expected: usize,
    now: DateTime,
    ring: ContextView,
    lone: ContextView,
)
    requires
        accused_by(verdict).len() > 0 ==> {
            &&& ring.provider_id == accused_by(verdict)[0]
            &&& lone.provider_id == accused_by(verdict)[0]
        },
        ring.offense_type == OffenseView::WrongResult,
        ring.colluding_providers == accused_by(verdict),
        ring.total_providers == expected,
        ring.offense_time == now,
        lone.offense_type == OffenseView::WrongResult,
        lone.colluding_providers.len() == 0,
        lone.offense_time == now,
    ensures
        ({
            let collusion = collusion_report(verdict, expected, now);
            let errors = random_error_report(verdict, expected, now);
            let accused = accused_by(verdict);
            &&& !collusion.attack_blocked ==> collusion.details
                == "共谋攻击成功: 验证器接受了错误结果"@
            &&& !errors.attack_blocked ==> errors.details
                == "随机错误攻击: 部分错误未检测到"@
            &&& collusion.attack_blocked && verdict is Some && verdict.unwrap() is Verified
                ==> collusion.details == "共谋攻击已检测: 识别出3个共谋节点. "@ + (
            "严重程度: "@ + severity_text(severity(Seq::empty(), 3600, ring))
                + " (共谋比例: "@ + rounded_text(accused.len() as int * 100, expected as nat, 1)
                + "%)"@)
            &&& errors.attack_blocked ==> errors.details
                == "随机错误攻击已检测: 识别出2个错误节点. "@ + ("严重程度: "@ + severity_text(
                severity(Seq::empty(), 3600, lone),
            ) + " (随机错误，无共谋)"@)
            &&& verdict is Some && verdict.unwrap() is Failed ==> collusion.details
                == "共谋攻击已检测: 识别出3个共谋节点. "@ + (if accused.len() > 0 {
                "共谋攻击已检测: 识别出"@ + decimal(accused.len()) + "个共谋节点"@
            } else {
                "共谋攻击: 未达成共识，但未识别出共谋节点"@
            })
        }),
{
    let accused = accused_by(verdict);
    if accused.len() > 0 {
        let hash = match verdict {
            Some(VerificationView::Verified { consensus_result_hash, .. }) => consensus_result_hash,
            _ => Seq::empty(),
        };
        law_remarks_do_not_count(
            Seq::empty(),
            3600,
            ring,
            scene_context(
                accused[0],
                "wrong_collusion"@,
                hash,
                OffenseView::WrongResult,
                accused,
                expected,
                accused.len() as usize,
                now,
            ),
        );
        let own = scene_context(
            accused[0],
            "error_"@ + node_text(accused[0]),
            hash,
            OffenseView::WrongResult,
            Seq::empty(),
            expected,
            accused.len() as usize,
            now,
        );
        assert(severity(Seq::empty(), 3600, lone) == severity(Seq::empty(), 3600, own));
    }
}

/// Too few honest providers count as blocked exactly where no consensus came
/// about; nobody is named for it.
pub proof fn law_missing_consensus_blocks(verdict: Option<VerificationView>)
    ensures
        ({
            let report = insufficient_honest_report(verdict);
            let failed = verdict is Some && verdict.unwrap() is Failed;
            &&& report.attack_blocked <==> failed
            &&& report.malicious_providers.len() == 0
            &&& report.slashing_actions == 0
            &&& report.details == if failed {
                "Attack blocked: No consensus reached due to insufficient honest providers"@
            } else {
                "Attack succeeded: Consensus reached with insufficient honest providers"@
            }
        }),
{
}

/// Tampering is noticed exactly where there is a consensus and someone deviates
/// from it. Those are named, and without a consensus nobody is.
pub proof fn law_tampering_needs_a_consensus(verdict: Option<VerificationView>)
    ensures
        ({
            let report = partial_tampering_report(verdict);
            match verdict {
                Some(VerificationView::Verified { malicious_providers, .. }) => {
                    &&& report.malicious_providers == malicious_providers
                    &&& report.attack_blocked <==> malicious_providers.len() > 0
                    &&& report.slashing_actions == malicious_providers.len()
                    &&& report.details == "部分结果篡改攻击已检测: 识别出篡改的Provider"@
                },
                _ => tampering_missed(report),
            }
        }),
{
}

/// The report tells of every attack in order, and counts those that were blocked.
pub proof fn law_report_tells_of_every_attack(results: Seq<AttackView>)
    ensures
        ({
            let blocked = results.filter(|r: AttackView| r.attack_blocked).len();
            let total = results.len();
            &&& blocked <= total
            &&& report_text(results) == "=== Verifier Attack Test Report ===\n\n"@
                + results.map_values(|r: AttackView| report_entry(r)).flatten()
                + "Summary:\n  Total Tests: "@ + decimal(total) + "\n  Attacks Blocked: "@
                + decimal(blocked) + "\n  Attacks Succeeded: "@ + decimal(
                (total - blocked) as nat,
            ) + "\n  Success Rate: "@ + (if total == 0 {
                "NaN"@
            } else {
                rounded_text(blocked as int * 100, total, 1)
            }) + "%\n"@
        }),
{
    lemma_report_parts(results);
}

proof fn lemma_report_parts(results: Seq<AttackView>)
    ensures
        blocked_attacks(results) == results.filter(|r: AttackView| r.attack_blocked).len(),
        blocked_attacks(results) <= results.len(),
        report_entries(results) == results.map_values(
            |r: AttackView| report_entry(r),
        ).flatten(),
    decreases results.len(),
{
    reveal(Seq::filter);
    let f = |r: AttackView| report_entry(r);
    let all = results.map_values(f);
    all.lemma_flatten_and_flatten_alt_are_equivalent();
    if results.len() > 0 {
        let front = results.drop_last();
        lemma_report_parts(front);
        front.map_values(f).lemma_flatten_and_flatten_alt_are_equivalent();
        assert(all.drop_last() =~= front.map_values(f));
        assert(all.last() == f(results.last()));
    }
}

/// What a report says of one attack: its name, whether it was blocked, what
/// happened, how many were found out and how many penalties there were.
pub proof fn law_report_entry_tells_all(result: AttackView)
    ensures
        report_entry(result) == "Test: "@ + result.test_name + "\n  Status: "@ + (
        if result.attack_blocked {
            "BLOCKED"@
        } else {
            "SUCCEEDED"@
        }) + "\n  Details: "@ + result.details + "\n  Malicious Providers Identified: "@ + decimal(
            result.malicious_providers.len(),
        ) + "\n  Slashing Actions: "@ + decimal(result.slashing_actions as nat) + "\n\n"@,
{
}

/// Of what a provider submits the first is accepted and nothing after it; nothing
/// is accepted that was not submitted.
pub proof fn law_first_submission_is_accepted(submissions: Seq<ProviderView>, i: int)
    requires
        0 <= i < submissions.len(),
        forall|j: int|
            0 <= j < i ==> (#[trigger] submissions[j]).provider_id != submissions[i].provider_id,
    ensures
        lookup(accepted(submissions), submissions[i].provider_id) == Some(submissions[i]),
        keys_distinct(accepted(submissions)),
        forall|k: int|
            0 <= k < accepted(submissions).len() ==> submissions.contains(
                (#[trigger] accepted(submissions)[k]).1,
            ),
{
    lemma_accepted(submissions);
    lemma_first_accepted(submissions, i);
}

proof fn lemma_accepted(submissions: Seq<ProviderView>)
    ensures
        keys_distinct(accepted(submissions)),
        forall|k: int|
            0 <= k < accepted(submissions).len() ==> {
                let entry = #[trigger] accepted(submissions)[k];
                entry.0 == entry.1.provider_id && submissions.contains(entry.1)
            },
    decreases submissions.len(),
{
    if submissions.len() > 0 {
        let front = submissions.drop_last();
        let last = submissions.last();
        let before = accepted(front);
        lemma_accepted(front);
        assert(submissions[submissions.len() - 1] == last);
        assert forall|k: int| 0 <= k < accepted(submissions).len() implies {
            let entry = #[trigger] accepted(submissions)[k];
            entry.0 == entry.1.provider_id && submissions.contains(entry.1)
        } by {
            if k < before.len() {
                let at = choose|at: int| 0 <= at < front.len() && front[at] == before[k].1;
                assert(submissions[at] == before[k].1);
            }
        }
        if lookup(before, last.provider_id) is None {
            law_lookup_finds_what_is_listed(before, last.provider_id, last);
        }
    }
}

proof fn lemma_first_accepted(submissions: Seq<ProviderView>, i: int)
    requires
        0 <= i < submissions.len(),
        forall|j: int|
            0 <= j < i ==> (#[trigger] submissions[j]).provider_id != submissions[i].provider_id,
    ensures
        lookup(accepted(submissions), submissions[i].provider_id) == Some(submissions[i]),
    decreases submissions.len(),
{
    let front = submissions.drop_last();
    let last = submissions.last();
    let own = submissions[i].provider_id;
    lemma_accepted(front);
    lemma_accepted(submissions);
    if i < front.len() {
        assert forall|j: int| 0 <= j < i implies (#[trigger] front[j]).provider_id
            != front[i].provider_id by {
            assert(front[j] == submissions[j]);
        }
        lemma_first_accepted(front, i);
        law_lookup_finds_what_is_listed(accepted(front), own, submissions[i]);
        let at = choose|at: int|
            0 <= at < accepted(front).len() && accepted(front)[at] == (own, submissions[i]);
        assert(accepted(submissions)[at] == (own, submissions[i]));
    } else {
        assert forall|k: int| 0 <= k < accepted(front).len() implies (
        #[trigger] accepted(front)[k]).0 != own by {
            let entry = accepted(front)[k];
            let at = choose|at: int| 0 <= at < front.len() && front[at] == entry.1;
            assert(submissions[at] == entry.1);
        }
        law_lookup_finds_what_is_listed(accepted(front), own, last);
        assert(accepted(submissions)[accepted(front).len() as int] == (own, last));
    }
    law_lookup_finds_what_is_listed(accepted(submissions), own, submissions[i]);
}

/// Submissions are judged by their status once it is more than pending, and not
/// before.
pub proof fn law_scenes_are_judged_by_status(submissions: Seq<ProviderView>, expected: int)
    ensures
        scene_verdict(submissions, expected) is None <==> status(
            accepted(submissions),
            expected,
        ) is Pending,
        scene_verdict(submissions, expected) is Some ==> scene_verdict(
            submissions,
            expected,
        ).unwrap() == status(accepted(submissions), expected),
{
}

proof fn lemma_verdict_names(verdict: Option<VerificationView>, expected: usize, now: DateTime)
    ensures
        collusion_report(verdict, expected, now).test_name == "Collusion Attack"@,
        random_error_report(verdict, expected, now).test_name == "Random Error Attack"@,
        insufficient_honest_report(verdict).test_name == "Insufficient Honest Providers"@,
        partial_tampering_report(verdict).test_name == "Partial Result Tampering"@,
{
}

proof fn lemma_check_names(
    found: ValidationView,
    amount: Decimal,
    other: Decimal,
    offenses: Seq<OffenseView>,
    levels: Seq<OffenseSeverity>,
    provider: Seq<u8>,
    noticed: int,
)
    ensures
        inflation_report(found).test_name == "Resource Inflation Attack"@,
        cost_fraud_report(found, amount, other).test_name == "Cost Fraud Attack"@,
        escalation_report(noticed, levels, provider).test_name == "Escalating Attack"@,
        hybrid_report(offenses).test_name == "Hybrid Attack"@,
        exhaustion_report(found).test_name == "Resource Exhaustion Attack"@,
        injection_report(found).test_name == "Format Injection Attack"@,
{
}

proof fn lemma_timed_names(now: DateTime)
    ensures
        slashing_report(now).test_name == "Slashing Mechanism with Severity"@,
        shifted_time_report(now).test_name == "Timestamp Manipulation Attack"@,
{
}

proof fn lemma_names_in_order(
    a: AttackView,
    b: AttackView,
    c: AttackView,
    d: AttackView,
    e: AttackView,
    f: AttackView,
    g: AttackView,
    h: AttackView,
    i: AttackView,
    j: AttackView,
    k: AttackView,
    l: AttackView,
)
    ensures
        seq![a, b, c, d, e, f, g, h, i, j, k, l].map_values(
            |report: AttackView| report.test_name,
        ) == seq![
            a.test_name,
            b.test_name,
            c.test_name,
            d.test_name,
            e.test_name,
            f.test_name,
            g.test_name,
            h.test_name,
            i.test_name,
            j.test_name,
            k.test_name,
            l.test_name,
        ],
{
    assert(seq![a, b, c, d, e, f, g, h, i, j, k, l].map_values(|report: AttackView| report.test_name) =~= seq![
        a.test_name,
        b.test_name,
        c.test_name,
        d.test_name,
        e.test_name,
        f.test_name,
        g.test_name,
        h.test_name,
        i.test_name,
        j.test_name,
        k.test_name,
        l.test_name,
    ]);
}

/// Twelve attacks are played, each under its own name, in this order.
#[verifier::spinoff_prover]
pub proof fn law_all_attacks_are_played(now: DateTime)
    ensures
        all_attacks(now).map_values(|report: AttackView| report.test_name) == seq![
            "Collusion Attack"@,
            "Random Error Attack"@,
            "Insufficient Honest Providers"@,
            "Slashing Mechanism with Severity"@,
            "Resource Inflation Attack"@,
            "Cost Fraud Attack"@,
            "Timestamp Manipulation Attack"@,
            "Escalating Attack"@,
            "Hybrid Attack"@,
            "Partial Result Tampering"@,
            "Resource Exhaustion Attack"@,
            "Format Injection Attack"@,
        ],
{
    let tolerance = Decimal { micros: 100_000 };
    let reported = Decimal { micros: 1_150_000 };
    let fair = Decimal { micros: 1_000_000 };
    let inflated = usage_check(inflated_usage(), fair_usage(), tolerance);
    let cost = cost_check(reported, fair, Decimal { micros: 50_000 });
    let exhausting = usage_check(exhausting_usage(), fair_usage(), tolerance);
    let injected = format_check(injected_batch(now), now);
    let mixed = hybrid_offenses(now);
    let levels = escalating_levels(now, 3);
    let stages = noticed_stages();
    let attacker = named_node("escalating_attacker"@);
    lemma_timed_names(now);
    lemma_verdict_names(scene_verdict(collusion_scene(now), 5), 5, now);
    lemma_verdict_names(scene_verdict(random_error_scene(now), 6), 6, now);
    lemma_verdict_names(scene_verdict(insufficient_honest_scene(now), 5), 5, now);
    lemma_verdict_names(scene_verdict(partial_tampering_scene(now), 5), 5, now);
    lemma_check_names(inflated, reported, fair, mixed, levels, attacker, stages);
    lemma_check_names(cost, reported, fair, mixed, levels, attacker, stages);
    lemma_check_names(exhausting, reported, fair, mixed, levels, attacker, stages);
    lemma_check_names(injected, reported, fair, mixed, levels, attacker, stages);
    lemma_names_in_order(
        collusion_report(scene_verdict(collusion_scene(now), 5), 5, now),
        random_error_report(scene_verdict(random_error_scene(now), 6), 6, now),
        insufficient_honest_report(scene_verdict(insufficient_honest_scene(now), 5)),
        slashing_report(now),
        inflation_report(inflated),
        cost_fraud_report(cost, reported, fair),
        shifted_time_report(now),
        escalation_report(stages, levels, attacker),
        hybrid_report(mixed),
        partial_tampering_report(scene_verdict(partial_tampering_scene(now), 5)),
        exhaustion_report(exhausting),
        injection_report(injected),
    );
}

/// Who takes part in the scenes, and with what: the honest succeed and agree with
/// each other, the others report an error at the last command.
pub proof fn law_scenes_are_cast(now: DateTime, i: int)
    ensures
        ({
            let scene = collusion_scene(now);
            &&& scene.len() == 5
            &&& 0 <= i < 5 ==> {
                &&& scene[i].results.len() == 1
                &&& scene[i].results[0].result is Success <==> i < 2
                &&& scene[i].results == scene[if i < 2 { 0 } else { 4 }].results
                &&& scene[i].provider_id == if i < 2 {
                    named_node("honest_"@ + decimal(i as nat))
                } else {
                    named_node("colluder_"@ + decimal((i - 2) as nat))
                }
            }
        }),
        ({
            let scene = random_error_scene(now);
            &&& scene.len() == 6
            &&& 0 <= i < 6 ==> {
                &&& scene[i].results.len() == 1
                &&& scene[i].results[0].result is Success <==> i < 4
                &&& i < 4 ==> scene[i].results == scene[0].results
                &&& i >= 4 ==> scene[i].results[0].message == Some(
                    "error"@ + decimal((i - 3) as nat),
                )
                &&& scene[i].provider_id == if i < 4 {
                    named_node("honest_"@ + decimal(i as nat))
                } else {
                    named_node("error_provider_"@ + decimal((i - 4) as nat))
                }
            }
        }),
        ({
            let scene = insufficient_honest_scene(now);
            &&& scene.len() == 5
            &&& 0 <= i < 5 ==> {
                &&& scene[i].results.len() == 1
                &&& scene[i].results[0].result is Success <==> i == 0
                &&& i >= 1 ==> scene[i].results[0].message == Some(
                    "wrong_"@ + decimal((i - 1) as nat),
                )
                &&& scene[i].provider_id == if i == 0 {
                    named_node("honest_0"@)
                } else {
                    named_node("malicious_"@ + decimal((i - 1) as nat))
                }
            }
        }),
        ({
            let scene = partial_tampering_scene(now);
            &&& scene.len() == 5
            &&& 0 <= i < 5 ==> {
                &&& scene[i].results.len() == 2
                &&& scene[i].results[0].result is Success
                &&& scene[i].results[1].result is Success <==> i < 3
                &&& scene[i].results[0] == scene[0].results[0]
                &&& scene[i].provider_id == if i < 3 {
                    named_node("honest_"@ + decimal(i as nat))
                } else {
                    named_node("tamperer_"@ + decimal((i - 3) as nat))
                }
            }
        }),
{
}

} // verus!
