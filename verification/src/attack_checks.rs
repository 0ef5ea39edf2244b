//! Attacks that the checks on single results and the penalties answer.
use crate::attack_tests::AttackTestResult;
#[allow(unused_imports)]
use crate::attack_tests::{plain_command, scene_context, single, AttackView};
use crate::command::{CommandResult, ExeScriptCommandResult};
#[allow(unused_imports)]
use crate::command::CommandView;
use crate::fixed::{push_rounded, Decimal, Ratio};
#[allow(unused_imports)]
use crate::fixed::rounded_text;
use crate::node::{create_node_id, NodeId};
#[allow(unused_imports)]
use crate::node::named_node;
use crate::offense::{OffenseContext, OffenseSeverity, OffenseType};
#[allow(unused_imports)]
use crate::offense::{rank, severity_text, ContextView, OffenseView};
use crate::ordered_map::OrderedMap;
#[allow(unused_imports)]
use crate::ordered_map::{keys_distinct, lemma_find_at, lemma_upsert_lookup};
use crate::result_validator::{ResultValidator, ValidationResult};
#[allow(unused_imports)]
use crate::result_validator::{
    ascending, cost_check, exceeds, format_check, future_times, gaps, indices, inflation,
    placed, repeats, seconds_apart, strays, time_check, usage_check, usage_offenses,
    ValidationView,
};
use crate::severity::SeverityEvaluator;
#[allow(unused_imports)]
use crate::severity::{
    countable, law_first_offense_is_minor, law_history_counts, law_lone_offense_is_not_severe,
    law_severity_is_weighed, lemma_countable, severity, updated, OffenseHistory,
};
use crate::slashing::{
    generate_slashing_actions_with_severity_at, OffenseTracker, PenaltyMode, SlashingConfig,
};
#[allow(unused_imports)]
use crate::slashing::{
    default_config, has_room, lemma_room, lemma_slashed_room, new_evaluator, slashed,
    slashed_all, SlashingState, TrackerView,
};
use crate::text::{push_decimal, push_decimal_int};
#[allow(unused_imports)]
use crate::text::{decimal, decimal_int};
use crate::time::{utc_now, DateTime};
#[allow(unused_imports)]
use crate::time::{
    elapsed_nanos, instant_exists, later, law_later_is_that_much_later, lemma_instant,
    whole_seconds, MAX_SECS, NANOS_PER_SEC,
};
#[allow(unused_imports)]
use crate::views::views;
use vstd::prelude::*;

verus! {

fn wrong_result_context(
    provider_id: NodeId,
    wrong_hash: &str,
    malicious_count: usize,
    time: DateTime,
) -> (context: OffenseContext)
    ensures
        context@ == scene_context(
            provider_id@,
            wrong_hash@,
            "correct"@,
            OffenseView::WrongResult,
            Seq::empty(),
            5,
            malicious_count,
            time,
        ),
{
    let context = OffenseContext {
        provider_id,
        offense_time: time,
        wrong_result_hash: wrong_hash.to_string(),
        correct_result_hash: "correct".to_string(),
        offense_type: OffenseType::WrongResult,
        colluding_providers: Vec::new(),
        total_providers: 5,
        malicious_count,
        resource_usage: None,
        cost_info: None,
    };
    assert(context@.colluding_providers =~= Seq::<Seq<u8>>::empty());
    context
}

fn report(name: &str, attack_blocked: bool, details: String, slashing_actions: usize) -> (result:
    AttackTestResult)
    ensures
        result@ == (AttackView {
            test_name: name@,
            attack_blocked,
            details: details@,
            malicious_providers: Seq::empty(),
            slashing_actions: slashing_actions as int,
        }),
{
    let result = AttackTestResult {
        test_name: name.to_string(),
        attack_blocked,
        details,
        malicious_providers: Vec::new(),
        slashing_actions,
    };
    assert(result@.malicious_providers =~= Seq::<Seq<u8>>::empty());
    result
}

// ---------------------------------------------------------------- slashing

/// The offenders: one that offends again, and one that does not.
pub open spec fn offenders() -> Seq<Seq<u8>> {
    seq![named_node("repeat_offender"@), named_node("first_time"@)]
}

/// The first offenses.
pub open spec fn first_offenses(now: DateTime) -> Seq<ContextView> {
    offenders().map_values(
        |id: Seq<u8>|
            scene_context(
                id,
                "wrong"@,
                "correct"@,
                OffenseView::WrongResult,
                Seq::empty(),
                5,
                2,
                now,
            ),
    )
}

/// The repeated offense, a hundred seconds later.
pub open spec fn repeated_offense(now: DateTime) -> Seq<ContextView> {
    seq![
        scene_context(
            offenders()[0],
            "wrong2"@,
            "correct"@,
            OffenseView::WrongResult,
            Seq::empty(),
            5,
            1,
            later(now, 100),
        ),
    ]
}

/// The first round of penalties.
pub open spec fn first_round(now: DateTime) -> SlashingState {
    slashed_all(
        TrackerView {
            offenses: Seq::empty(),
            last_times: Seq::empty(),
            config: default_config(),
        },
        new_evaluator(),
        offenders(),
        first_offenses(now),
        now,
    )
}

/// The second round of penalties.
pub open spec fn second_round(now: DateTime) -> SlashingState {
    slashed_all(
        first_round(now).tracker,
        first_round(now).evaluator,
        offenders().take(1),
        repeated_offense(now),
        now,
    )
}

/// How the penalties came out.
pub open spec fn slashing_report(now: DateTime) -> AttackView {
    AttackView {
        test_name: "Slashing Mechanism with Severity"@,
        attack_blocked: true,
        details: "惩罚机制工作正常: 首次违规严重程度 "@ + severity_text(
            first_round(now).actions[0].severity,
        ) + ", 重复违规严重程度 "@ + severity_text(second_round(now).actions[0].severity),
        malicious_providers: offenders(),
        slashing_actions: 3,
    }
}

proof fn lemma_round_lengths(now: DateTime)
    ensures
        first_round(now).actions.len() == 2,
        second_round(now).actions.len() == 1,
        has_room(first_round(now).tracker, 1),
        countable(first_round(now).evaluator.history, 1),
{
    let start = SlashingState {
        tracker: TrackerView {
            offenses: Seq::empty(),
            last_times: Seq::empty(),
            config: default_config(),
        },
        evaluator: new_evaluator(),
        actions: Seq::empty(),
    };
    reveal_with_fuel(slashed, 3);
    lemma_slashed_room(start, offenders(), first_offenses(now), now, 2, 3);
}

/// Repeated offenses are punished, at the current time.
pub fn test_slashing_mechanism() -> (result: AttackTestResult)
    ensures
        exists|now: DateTime| result@ == #[trigger] slashing_report(now),
{
    let now = utc_now();
    test_slashing_mechanism_at(now)
}

/// Repeated offenses are punished, at the time `now`.
pub fn test_slashing_mechanism_at(now: DateTime) -> (result: AttackTestResult)
    ensures
        result@ == slashing_report(now),
{
    let mut config = SlashingConfig::default();
    config.penalty_mode = PenaltyMode::Proportional;
    let mut tracker = OffenseTracker::new(config);
    let mut evaluator = SeverityEvaluator::new();
    let repeat_offender = create_node_id("repeat_offender");
    let first_time = create_node_id("first_time");
    let mut malicious_providers: Vec<NodeId> = Vec::new();
    malicious_providers.push(repeat_offender);
    malicious_providers.push(first_time);
    assert(views(malicious_providers@) =~= offenders());
    let mut contexts: Vec<OffenseContext> = Vec::new();
    contexts.push(wrong_result_context(repeat_offender, "wrong", 2, now));
    contexts.push(wrong_result_context(first_time, "wrong", 2, now));
    assert(views(contexts@) =~= first_offenses(now));
    let actions1 = generate_slashing_actions_with_severity_at(
        malicious_providers.as_slice(),
        &mut tracker,
        &mut evaluator,
        contexts.as_slice(),
        now,
    );
    proof {
        lemma_round_lengths(now);
    }
    let mut again: Vec<NodeId> = Vec::new();
    again.push(repeat_offender);
    assert(views(again@) =~= offenders().take(1));
    let mut repeat_contexts: Vec<OffenseContext> = Vec::new();
    repeat_contexts.push(wrong_result_context(repeat_offender, "wrong2", 1, now.later_by(100)));
    assert(views(repeat_contexts@) =~= repeated_offense(now));
    let actions2 = generate_slashing_actions_with_severity_at(
        again.as_slice(),
        &mut tracker,
        &mut evaluator,
        repeat_contexts.as_slice(),
        now,
    );
    assert(views(actions1@) == first_round(now).actions);
    assert(views(actions2@) == second_round(now).actions);
    assert(views(actions1@)[0] == actions1@[0]@);
    assert(views(actions2@)[0] == actions2@[0]@);
    let mut details = "惩罚机制工作正常: 首次违规严重程度 ".to_string();
    let first_name = actions1[0].severity.to_text();
    details.append(first_name.as_str());
    details.append(", 重复违规严重程度 ");
    let second_name = actions2[0].severity.to_text();
    details.append(second_name.as_str());
    AttackTestResult {
        test_name: "Slashing Mechanism with Severity".to_string(),
        attack_blocked: true,
        details,
        malicious_providers,
        slashing_actions: actions1.len() + actions2.len(),
    }
}

// ---------------------------------------------------------------- inflation

/// A number of whole units.
pub open spec fn units(n: int) -> Decimal {
    Decimal { micros: (n * 1_000_000) as i64 }
}

/// The resources by consensus.
pub open spec fn fair_usage() -> Seq<(Seq<char>, Decimal)> {
    seq![("cpu"@, units(10)), ("gpu"@, units(5)), ("mem"@, units(100))]
}

/// The resources that a cheater reports.
pub open spec fn inflated_usage() -> Seq<(Seq<char>, Decimal)> {
    seq![("cpu"@, units(25)), ("gpu"@, units(4)), ("mem"@, units(150))]
}

/// The number of inflated resources among offenses, combined ones included.
pub open spec fn inflations(offenses: Seq<OffenseView>) -> nat
    decreases offenses.len(),
{
    if offenses.len() == 0 {
        0
    } else {
        inflations(offenses.drop_last()) + match offenses.last() {
            OffenseView::Multiple(parts) => plain_inflations(parts),
            OffenseView::ResourceInflation { .. } => 1nat,
            _ => 0nat,
        }
    }
}

/// The number of inflated resources among offenses that are not combined.
pub open spec fn plain_inflations(offenses: Seq<OffenseView>) -> nat
    decreases offenses.len(),
{
    if offenses.len() == 0 {
        0
    } else {
        plain_inflations(offenses.drop_last()) + if offenses.last() is ResourceInflation {
            1nat
        } else {
            0nat
        }
    }
}

/// How inflated usage was dealt with, given what validation found.
pub open spec fn inflation_report(found: ValidationView) -> AttackView {
    AttackView {
        test_name: "Resource Inflation Attack"@,
        attack_blocked: !found.is_valid,
        details: if !found.is_valid {
            "资源夸大攻击已检测: 发现 "@ + decimal(inflations(found.offenses)) + " 个资源夸大违规"@
        } else {
            "资源夸大攻击: 未检测到异常"@
        },
        malicious_providers: Seq::empty(),
        slashing_actions: inflations(found.offenses) as int,
    }
}

fn count_plain(offenses: &Vec<OffenseType>) -> (n: usize)
    ensures
        n == plain_inflations(views(offenses@)),
{
    let ghost all = views(offenses@);
    let mut n: usize = 0;
    let mut i: usize = 0;
    while i < offenses.len()
        invariant
            i <= offenses.len(),
            all == views(offenses@),
            n == plain_inflations(all.take(i as int)),
            n <= i,
        decreases offenses.len() - i,
    {
        assert(all.take(i + 1).drop_last() =~= all.take(i as int));
        assert(all.take(i + 1).last() == offenses@[i as int]@);
        match &offenses[i] {
            OffenseType::ResourceInflation { .. } => {
                n += 1;
            },
            _ => {},
        }
        i += 1;
    }
    assert(all.take(i as int) =~= all);
    n
}

/// How inflated usage was dealt with, given what validation found.
pub fn judge_inflation(found: &ValidationResult) -> (result: AttackTestResult)
    requires
        inflations(found@.offenses) <= usize::MAX,
    ensures
        result@ == inflation_report(found@),
{
    let ghost all = views(found.offenses@);
    let mut n: usize = 0;
    let mut i: usize = 0;
    while i < found.offenses.len()
        invariant
            i <= found.offenses.len(),
            all == views(found.offenses@),
            n == inflations(all.take(i as int)),
            inflations(all) <= usize::MAX,
        decreases found.offenses.len() - i,
    {
        assert(all.take(i + 1).drop_last() =~= all.take(i as int));
        assert(all.take(i + 1).last() == found.offenses@[i as int]@);
        proof {
            lemma_inflations_grow(all, i + 1);
        }
        match &found.offenses[i] {
            OffenseType::Multiple(parts) => {
                assert(found.offenses@[i as int]@->Multiple_0 =~= views(parts@));
                let inner: usize = count_plain(parts);
                n += inner;
            },
            OffenseType::ResourceInflation { .. } => {
                n += 1;
            },
            _ => {},
        }
        i += 1;
    }
    assert(all.take(i as int) =~= all);
    let details = if !found.is_valid {
        let mut text = "资源夸大攻击已检测: 发现 ".to_string();
        push_decimal(&mut text, n as u128);
        text.append(" 个资源夸大违规");
        text
    } else {
        "资源夸大攻击: 未检测到异常".to_string()
    };
    report("Resource Inflation Attack", !found.is_valid, details, n)
}

proof fn lemma_inflations_grow(offenses: Seq<OffenseView>, i: int)
    requires
        0 <= i <= offenses.len(),
    ensures
        inflations(offenses.take(i)) <= inflations(offenses),
    decreases offenses.len(),
{
    if i == offenses.len() {
        assert(offenses.take(i) =~= offenses);
    } else {
        lemma_inflations_grow(offenses.drop_last(), i);
        assert(offenses.drop_last().take(i) =~= offenses.take(i));
    }
}

fn three_resources(cpu: Decimal, gpu: Decimal, mem: Decimal) -> (usage: OrderedMap<String, Decimal>)
    ensures
        usage@ == seq![("cpu"@, cpu), ("gpu"@, gpu), ("mem"@, mem)],
{
    proof {
        reveal_strlit("cpu");
        reveal_strlit("gpu");
        reveal_strlit("mem");
        assert("cpu"@[0] != "gpu"@[0]);
        assert("cpu"@[0] != "mem"@[0]);
        assert("gpu"@[0] != "mem"@[0]);
    }
    let ghost wanted = seq![("cpu"@, cpu), ("gpu"@, gpu), ("mem"@, mem)];
    let mut usage: OrderedMap<String, Decimal> = OrderedMap::new();
    usage.insert("cpu".to_string(), cpu);
    assert(usage@ =~= wanted.take(1));
    usage.insert("gpu".to_string(), gpu);
    assert(usage@ =~= wanted.take(2));
    usage.insert("mem".to_string(), mem);
    assert(usage@ =~= wanted);
    usage
}

fn one_resource(cpu: Decimal) -> (usage: OrderedMap<String, Decimal>)
    ensures
        usage@ == seq![("cpu"@, cpu)],
{
    let mut usage: OrderedMap<String, Decimal> = OrderedMap::new();
    usage.insert("cpu".to_string(), cpu);
    assert(usage@ =~= seq![("cpu"@, cpu)]);
    usage
}

proof fn lemma_usage_inflations(
    reported: Seq<(Seq<char>, Decimal)>,
    consensus: Seq<(Seq<char>, Decimal)>,
    tolerance: Decimal,
)
    ensures
        inflations(usage_offenses(reported, consensus, tolerance)) == usage_offenses(
            reported,
            consensus,
            tolerance,
        ).len(),
        usage_offenses(reported, consensus, tolerance).len() <= reported.len(),
        forall|i: int|
            0 <= i < usage_offenses(reported, consensus, tolerance).len() ==> (
            #[trigger] usage_offenses(reported, consensus, tolerance)[i]) is ResourceInflation,
    decreases reported.len(),
{
    if reported.len() > 0 {
        lemma_usage_inflations(reported.drop_last(), consensus, tolerance);
        let before = usage_offenses(reported.drop_last(), consensus, tolerance);
        let now = usage_offenses(reported, consensus, tolerance);
        if now.len() > before.len() {
            assert(now.drop_last() =~= before);
        }
    }
}

/// A provider reports more resources than it used.
pub fn test_resource_inflation_attack() -> (result: AttackTestResult)
    ensures
        result@ == inflation_report(
            usage_check(inflated_usage(), fair_usage(), Decimal { micros: 100_000 }),
        ),
        result@.attack_blocked,
        result@.slashing_actions == 3,
{
    let validator = ResultValidator::default();
    let consensus = three_resources(
        Decimal { micros: 10_000_000 },
        Decimal { micros: 5_000_000 },
        Decimal { micros: 100_000_000 },
    );
    let reported = three_resources(
        Decimal { micros: 25_000_000 },
        Decimal { micros: 4_000_000 },
        Decimal { micros: 150_000_000 },
    );
    let found = validator.validate_resource_usage(&reported, &consensus);
    proof {
        lemma_usage_inflations(inflated_usage(), fair_usage(), Decimal { micros: 100_000 });
        lemma_three_offenses(units(25), units(4), units(150));
    }
    judge_inflation(&found)
}

proof fn lemma_three_offenses(cpu: Decimal, gpu: Decimal, mem: Decimal)
    requires
        exceeds(cpu, units(10), Decimal { micros: 100_000 }),
        exceeds(gpu, units(5), Decimal { micros: 100_000 }),
        exceeds(mem, units(100), Decimal { micros: 100_000 }),
    ensures
        ({
            let all = seq![("cpu"@, cpu), ("gpu"@, gpu), ("mem"@, mem)];
            let found = usage_offenses(all, fair_usage(), Decimal { micros: 100_000 });
            &&& found.len() == 3
            &&& found[0] == OffenseView::ResourceInflation {
                resource_type: "cpu"@,
                reported_usage: cpu,
                expected_usage: units(10),
                inflation_ratio: inflation(cpu, units(10)),
            }
        }),
{
    reveal_strlit("cpu");
    reveal_strlit("gpu");
    reveal_strlit("mem");
    assert("cpu"@[0] != "gpu"@[0]);
    assert("cpu"@[0] != "mem"@[0]);
    assert("gpu"@[0] != "mem"@[0]);
    let fair = fair_usage();
    let all = seq![("cpu"@, cpu), ("gpu"@, gpu), ("mem"@, mem)];
    let tolerance = Decimal { micros: 100_000 };
    assert(keys_distinct(fair));
    lemma_find_at(fair, 0);
    lemma_find_at(fair, 1);
    lemma_find_at(fair, 2);
    assert(all.drop_last() =~= all.take(2));
    assert(all.take(2).drop_last() =~= all.take(1));
    assert(all.take(1).drop_last() =~= all.take(0));
    assert(usage_offenses(all.take(0), fair, tolerance).len() == 0);
    assert(usage_offenses(all.take(1), fair, tolerance).len() == 1);
    assert(usage_offenses(all.take(2), fair, tolerance).len() == 2);
    assert(usage_offenses(all, fair, tolerance).len() == 3);
}

// ---------------------------------------------------------------- cost

/// How a wrong cost was dealt with, given what validation found.
pub open spec fn cost_fraud_report(
    found: ValidationView,
    reported: Decimal,
    consensus: Decimal,
) -> AttackView {
    let fraud = exists|i: int|
        0 <= i < found.offenses.len() && (#[trigger] found.offenses[i]) is CostFraud;
    AttackView {
        test_name: "Cost Fraud Attack"@,
        attack_blocked: !found.is_valid,
        details: if !found.is_valid && fraud {
            "成本欺诈攻击已检测: 报告成本 "@ + rounded_text(reported.micros as int, 1_000_000, 2)
                + ", 共识成本 "@ + rounded_text(consensus.micros as int, 1_000_000, 2)
                + ", 差异 "@ + rounded_text(
                (reported.micros - consensus.micros) * 100,
                consensus.micros as nat,
                2,
            ) + "%"@
        } else {
            "成本欺诈攻击: 未检测到异常"@
        },
        malicious_providers: Seq::empty(),
        slashing_actions: if fraud {
            1
        } else {
            0
        },
    }
}

/// How a wrong cost was dealt with, given what validation found.
pub fn judge_cost_fraud(found: &ValidationResult, reported: Decimal, consensus: Decimal) -> (result:
    AttackTestResult)
    requires
        consensus.micros > 0,
    ensures
        result@ == cost_fraud_report(found@, reported, consensus),
{
    let ghost all = views(found.offenses@);
    let mut fraud = false;
    let mut i: usize = 0;
    while i < found.offenses.len()
        invariant
            i <= found.offenses.len(),
            all == views(found.offenses@),
            fraud == exists|j: int| 0 <= j < i && (#[trigger] all[j]) is CostFraud,
        decreases found.offenses.len() - i,
    {
        assert(all[i as int] == found.offenses@[i as int]@);
        match &found.offenses[i] {
            OffenseType::CostFraud { .. } => {
                assert(all[i as int] is CostFraud);
                fraud = true;
            },
            _ => {},
        }
        i += 1;
    }
    let details = if !found.is_valid && fraud {
        let mut text = "成本欺诈攻击已检测: 报告成本 ".to_string();
        push_rounded(&mut text, reported.micros as i128, 1_000_000, 2);
        text.append(", 共识成本 ");
        push_rounded(&mut text, consensus.micros as i128, 1_000_000, 2);
        text.append(", 差异 ");
        let difference: i128 = reported.micros as i128 - consensus.micros as i128;
        push_rounded(&mut text, difference * 100, consensus.micros as u128, 2);
        text.append("%");
        text
    } else {
        "成本欺诈攻击: 未检测到异常".to_string()
    };
    report(
        "Cost Fraud Attack",
        !found.is_valid,
        details,
        if fraud {
            1
        } else {
            0
        },
    )
}

/// A provider charges fifteen per cent too much.
pub fn test_cost_fraud_attack() -> (result: AttackTestResult)
    ensures
        result@ == cost_fraud_report(
            cost_check(
                Decimal { micros: 1_150_000 },
                Decimal { micros: 1_000_000 },
                Decimal { micros: 50_000 },
            ),
            Decimal { micros: 1_150_000 },
            Decimal { micros: 1_000_000 },
        ),
        result@.attack_blocked,
        result@.slashing_actions == 1,
{
    let validator = ResultValidator::default();
    let consensus = Decimal { micros: 1_000_000 };
    let reported = Decimal { micros: 1_150_000 };
    let found = validator.validate_cost(reported, consensus);
    assert(exceeds(reported, consensus, Decimal { micros: 50_000 }));
    assert(found@.offenses[0] is CostFraud);
    judge_cost_fraud(&found, reported, consensus)
}

// ---------------------------------------------------------------- times

/// How a shifted time was dealt with, given what validation found.
pub open spec fn manipulation_report(
    found: ValidationView,
    reported: DateTime,
    consensus: DateTime,
    max_secs: int,
) -> AttackView {
    let noticed = exists|i: int|
        0 <= i < found.offenses.len() && (#[trigger] found.offenses[i]) is TimestampAnomaly;
    AttackView {
        test_name: "Timestamp Manipulation Attack"@,
        attack_blocked: !found.is_valid,
        details: if !found.is_valid && noticed {
            "时间戳篡改攻击已检测: 时间差 "@ + decimal_int(
                whole_seconds(elapsed_nanos(reported, consensus)),
            ) + " 秒 (超过允许的 "@ + decimal_int(max_secs) + " 秒)"@
        } else {
            "时间戳篡改攻击: 未检测到异常"@
        },
        malicious_providers: Seq::empty(),
        slashing_actions: if noticed {
            1
        } else {
            0
        },
    }
}

/// How a shifted time was dealt with, given what validation found.
pub fn judge_manipulation(
    found: &ValidationResult,
    reported: DateTime,
    consensus: DateTime,
    max_secs: i64,
) -> (result: AttackTestResult)
    ensures
        result@ == manipulation_report(found@, reported, consensus, max_secs as int),
{
    let ghost all = views(found.offenses@);
    let mut noticed = false;
    let mut i: usize = 0;
    while i < found.offenses.len()
        invariant
            i <= found.offenses.len(),
            all == views(found.offenses@),
            noticed == exists|j: int| 0 <= j < i && (#[trigger] all[j]) is TimestampAnomaly,
        decreases found.offenses.len() - i,
    {
        assert(all[i as int] == found.offenses@[i as int]@);
        match &found.offenses[i] {
            OffenseType::TimestampAnomaly { .. } => {
                assert(all[i as int] is TimestampAnomaly);
                noticed = true;
            },
            _ => {},
        }
        i += 1;
    }
    let details = if !found.is_valid && noticed {
        let mut text = "时间戳篡改攻击已检测: 时间差 ".to_string();
        push_decimal_int(&mut text, reported.seconds_since(&consensus) as i128);
        text.append(" 秒 (超过允许的 ");
        push_decimal_int(&mut text, max_secs as i128);
        text.append(" 秒)");
        text
    } else {
        "时间戳篡改攻击: 未检测到异常".to_string()
    };
    report(
        "Timestamp Manipulation Attack",
        !found.is_valid,
        details,
        if noticed {
            1
        } else {
            0
        },
    )
}

/// How a time that is four hundred seconds ahead was dealt with.
pub open spec fn shifted_time_report(now: DateTime) -> AttackView {
    manipulation_report(
        time_check(seq![later(now, 400)], now, 300),
        later(now, 400),
        now,
        300,
    )
}

proof fn lemma_shifted(now: DateTime)
    requires
        instant_exists(now.spec_secs(), now.spec_nanos()),
        now.spec_secs() + 400 <= MAX_SECS,
    ensures
        !time_check(seq![later(now, 400)], now, 300).is_valid,
{
    let times = seq![later(now, 400)];
    if now.spec_nanos() >= NANOS_PER_SEC {
        lemma_instant(now.spec_secs() + 400, now.spec_nanos() - NANOS_PER_SEC);
    } else {
        lemma_instant(now.spec_secs() + 400, now.spec_nanos());
    }
    assert(seconds_apart(later(now, 400), now) > 300);
    reveal_with_fuel(strays, 2);
    assert(times.last() == later(now, 400));
    assert(strays(times, now, 300).len() == 1);
}

/// A provider reports a time in the future, at the current time.
pub fn test_timestamp_manipulation_attack() -> (result: AttackTestResult)
    ensures
        exists|now: DateTime| result@ == #[trigger] shifted_time_report(now),
{
    let now = utc_now();
    test_timestamp_manipulation_attack_at(now)
}

/// A provider reports a time in the future, at the time `now`.
pub fn test_timestamp_manipulation_attack_at(now: DateTime) -> (result: AttackTestResult)
    ensures
        result@ == shifted_time_report(now),
        now.spec_secs() + 400 <= MAX_SECS ==> result@.attack_blocked,
{
    let validator = ResultValidator::default();
    let future = now.later_by(400);
    let mut reported: Vec<DateTime> = Vec::new();
    reported.push(future);
    assert(reported@ =~= seq![later(now, 400)]);
    let found = validator.validate_timestamps(reported.as_slice(), now);
    proof {
        use_type_invariant(&now);
        if now.spec_secs() + 400 <= MAX_SECS {
            lemma_shifted(now);
        }
    }
    judge_manipulation(&found, future, now, validator.max_timestamp_diff_secs)
}

// ---------------------------------------------------------------- escalation

/// The number of stages at which the escalating attacker is noticed.
pub open spec fn noticed_stages() -> int {
    let tolerance = Decimal { micros: 100_000 };
    let fair = seq![("cpu"@, units(10))];
    let first: int = if usage_check(seq![("cpu"@, units(12))], fair, tolerance).is_valid {
        0
    } else {
        1
    };
    let second: int = if usage_check(seq![("cpu"@, units(18))], fair, tolerance).is_valid {
        0
    } else {
        1
    };
    let third: int = if usage_check(seq![("cpu"@, units(30))], fair, tolerance).is_valid
        && cost_check(units(2), units(1), Decimal { micros: 50_000 }).is_valid {
        0
    } else {
        1
    };
    first + second + third
}

/// The `i`-th offense of the escalating attacker.
pub open spec fn escalating_offense(i: int, now: DateTime) -> ContextView {
    scene_context(
        named_node("escalating_attacker"@),
        "escalating_"@ + decimal(i as nat),
        "correct"@,
        OffenseView::ResourceInflation {
            resource_type: "cpu"@,
            reported_usage: units(10 + 10 * i),
            expected_usage: units(10),
            inflation_ratio: Ratio::Finite(Decimal { micros: (1_000_000 + 500_000 * i) as i64 }),
        },
        Seq::empty(),
        5,
        1,
        later(now, 100 * i),
    )
}

/// What is known after the first `n` offenses.
pub open spec fn escalating_history(now: DateTime, n: nat) -> OffenseHistory
    decreases n,
{
    if n == 0 {
        Seq::empty()
    } else {
        updated(escalating_history(now, (n - 1) as nat), escalating_offense(n - 1, now))
    }
}

/// How severe the first `n` offenses are.
pub open spec fn escalating_levels(now: DateTime, n: nat) -> Seq<OffenseSeverity> {
    Seq::new(
        n,
        |i: int| severity(escalating_history(now, i as nat), 3600, escalating_offense(i, now)),
    )
}

/// Severities in a row, separated by commas.
pub open spec fn joined_levels(levels: Seq<OffenseSeverity>) -> Seq<char>
    decreases levels.len(),
{
    if levels.len() == 0 {
        Seq::empty()
    } else if levels.len() == 1 {
        severity_text(levels[0])
    } else {
        joined_levels(levels.drop_last()) + ", "@ + severity_text(levels.last())
    }
}

/// Whether the last severity is worse than the first.
pub open spec fn is_escalated(levels: Seq<OffenseSeverity>) -> bool {
    levels.len() >= 2 && rank(levels[0]) < rank(levels.last())
}

/// How an escalating attack was dealt with, given what was noticed.
pub open spec fn escalation_report(
    noticed: int,
    levels: Seq<OffenseSeverity>,
    provider: Seq<u8>,
) -> AttackView {
    let blocked = noticed >= 2;
    AttackView {
        test_name: "Escalating Attack"@,
        attack_blocked: blocked,
        details: "渐进式攻击检测: 发现 "@ + decimal(noticed as nat) + " 个违规阶段, 严重程度变化: ["@
            + joined_levels(levels) + "], 攻击"@ + if blocked && is_escalated(levels) {
            "已阻止并识别严重程度升级"@
        } else {
            "部分成功"@
        },
        malicious_providers: if blocked {
            seq![provider]
        } else {
            Seq::empty()
        },
        slashing_actions: noticed,
    }
}

fn rank_of(level: OffenseSeverity) -> (r: u8)
    ensures
        r == rank(level),
{
    match level {
        OffenseSeverity::Minor => 0,
        OffenseSeverity::Moderate => 1,
        OffenseSeverity::Severe => 2,
    }
}

fn push_levels(text: &mut String, levels: &Vec<OffenseSeverity>)
    ensures
        final(text)@ == old(text)@ + joined_levels(levels@),
{
    let ghost before = text@;
    assert(before + joined_levels(levels@.take(0)) =~= before);
    let mut i: usize = 0;
    while i < levels.len()
        invariant
            i <= levels.len(),
            text@ == before + joined_levels(levels@.take(i as int)),
        decreases levels.len() - i,
    {
        assert(levels@.take(i + 1).drop_last() =~= levels@.take(i as int));
        let name = levels[i].to_text();
        if i > 0 {
            text.append(", ");
        }
        text.append(name.as_str());
        assert(text@ =~= before + joined_levels(levels@.take(i + 1)));
        i += 1;
    }
    assert(levels@.take(i as int) =~= levels@);
}

/// How an escalating attack was dealt with, given what was noticed.
pub fn judge_escalation(noticed: usize, levels: &Vec<OffenseSeverity>, provider_id: NodeId) -> (result:
    AttackTestResult)
    ensures
        result@ == escalation_report(noticed as int, levels@, provider_id@),
{
    let attack_blocked = noticed >= 2;
    let escalated = levels.len() >= 2 && rank_of(levels[0]) < rank_of(levels[levels.len() - 1]);
    let mut details = "渐进式攻击检测: 发现 ".to_string();
    push_decimal(&mut details, noticed as u128);
    details.append(" 个违规阶段, 严重程度变化: [");
    push_levels(&mut details, levels);
    details.append("], 攻击");
    if attack_blocked && escalated {
        details.append("已阻止并识别严重程度升级");
    } else {
        details.append("部分成功");
    }
    let mut malicious_providers: Vec<NodeId> = Vec::new();
    if attack_blocked {
        malicious_providers.push(provider_id);
        assert(views(malicious_providers@) =~= seq![provider_id@]);
    } else {
        assert(views(malicious_providers@) =~= Seq::<Seq<u8>>::empty());
    }
    AttackTestResult {
        test_name: "Escalating Attack".to_string(),
        attack_blocked,
        details,
        malicious_providers,
        slashing_actions: noticed,
    }
}

/// A provider starts small and goes on to worse, at the current time.
pub fn test_escalating_attack() -> (result: AttackTestResult)
    ensures
        exists|now: DateTime|
            result@ == escalation_report(
                noticed_stages(),
                #[trigger] escalating_levels(now, 3),
                named_node("escalating_attacker"@),
            ),
        result@.attack_blocked,
        result@.slashing_actions == 3,
{
    let now = utc_now();
    test_escalating_attack_at(now)
}

/// A provider starts small and goes on to worse, at the time `now`.
pub fn test_escalating_attack_at(now: DateTime) -> (result: AttackTestResult)
    ensures
        result@ == escalation_report(
            noticed_stages(),
            escalating_levels(now, 3),
            named_node("escalating_attacker"@),
        ),
        result@.attack_blocked,
        result@.slashing_actions == 3,
{
    let validator = ResultValidator::default();
    let mut tracker = OffenseTracker::new(SlashingConfig::default());
    let mut evaluator = SeverityEvaluator::new();
    let provider_id = create_node_id("escalating_attacker");
    let consensus = one_resource(Decimal { micros: 10_000_000 });
    let mut noticed: usize = 0;
    let first = validator.validate_resource_usage(
        &one_resource(Decimal { micros: 12_000_000 }),
        &consensus,
    );
    if !first.is_valid {
        noticed += 1;
    }
    let second = validator.validate_resource_usage(
        &one_resource(Decimal { micros: 18_000_000 }),
        &consensus,
    );
    if !second.is_valid {
        noticed += 1;
    }
    let third = validator.validate_resource_usage(
        &one_resource(Decimal { micros: 30_000_000 }),
        &consensus,
    );
    let cost = validator.validate_cost(
        Decimal { micros: 2_000_000 },
        Decimal { micros: 1_000_000 },
    );
    if !third.is_valid || !cost.is_valid {
        noticed += 1;
    }
    assert(noticed == noticed_stages());
    proof {
        lemma_all_stages_noticed();
    }
    let mut levels: Vec<OffenseSeverity> = Vec::new();
    let mut i: u32 = 0;
    while i < 3
        invariant
            i <= 3,
            provider_id@ == named_node("escalating_attacker"@),
            evaluator@.repeat_window == 3600,
            evaluator@.history == escalating_history(now, i as nat),
            countable(evaluator@.history, 3 - i),
            has_room(tracker@, 3 - i),
            levels@ == escalating_levels(now, i as nat),
        decreases 3 - i,
    {
        let mut wrong_result_hash = "escalating_".to_string();
        push_decimal(&mut wrong_result_hash, i as u128);
        let context = OffenseContext {
            provider_id,
            offense_time: now.later_by(100 * i),
            wrong_result_hash,
            correct_result_hash: "correct".to_string(),
            offense_type: OffenseType::ResourceInflation {
                resource_type: "cpu".to_string(),
                reported_usage: Decimal { micros: 10_000_000 + 10_000_000 * i as i64 },
                expected_usage: Decimal { micros: 10_000_000 },
                inflation_ratio: Ratio::Finite(
                    Decimal { micros: 1_000_000 + 500_000 * i as i64 },
                ),
            },
            colluding_providers: Vec::new(),
            total_providers: 5,
            malicious_count: 1,
            resource_usage: None,
            cost_info: None,
        };
        proof {
            assert(context@.colluding_providers =~= Seq::<Seq<u8>>::empty());
            assert(context@ == escalating_offense(i as int, now));
            lemma_countable(evaluator@.history, context@, 3 - i);
            lemma_room(tracker@, provider_id@, now, 3 - i);
        }
        let level = evaluator.evaluate_severity(&context);
        levels.push(level);
        assert(levels@ =~= escalating_levels(now, (i + 1) as nat));
        tracker.record_offense_at(provider_id, now);
        i += 1;
    }
    judge_escalation(noticed, &levels, provider_id)
}

proof fn lemma_all_stages_noticed()
    ensures
        noticed_stages() == 3,
{
    let tolerance = Decimal { micros: 100_000 };
    let fair = seq![("cpu"@, units(10))];
    assert(keys_distinct(fair));
    lemma_find_at(fair, 0);
    assert(fair[0] == ("cpu"@, units(10)));
    assert(exceeds(units(12), units(10), tolerance));
    assert(exceeds(units(18), units(10), tolerance));
    assert(exceeds(units(30), units(10), tolerance));
    reveal_with_fuel(usage_offenses, 2);
    assert(seq![("cpu"@, units(12))].last() == ("cpu"@, units(12)));
    assert(seq![("cpu"@, units(18))].last() == ("cpu"@, units(18)));
    assert(seq![("cpu"@, units(30))].last() == ("cpu"@, units(30)));
}

// ---------------------------------------------------------------- hybrid

/// The resources of the hybrid attack by consensus.
pub open spec fn hybrid_fair_usage() -> Seq<(Seq<char>, Decimal)> {
    seq![("cpu"@, units(10)), ("gpu"@, units(5))]
}

/// The resources that the hybrid attacker reports.
pub open spec fn hybrid_usage() -> Seq<(Seq<char>, Decimal)> {
    seq![("cpu"@, units(25)), ("gpu"@, units(20))]
}

/// The offenses that are noticed in a hybrid attack.
pub open spec fn hybrid_offenses(now: DateTime) -> Seq<OffenseView> {
    format_check(single(CommandResult::Error, None, now), now).offenses + usage_check(
        hybrid_usage(),
        hybrid_fair_usage(),
        Decimal { micros: 100_000 },
    ).offenses + cost_check(
        Decimal { micros: 1_500_000 },
        Decimal { micros: 1_000_000 },
        Decimal { micros: 50_000 },
    ).offenses
}

/// How a hybrid attack was dealt with, given the offenses.
pub open spec fn hybrid_report(offenses: Seq<OffenseView>) -> AttackView {
    let combined = exists|i: int|
        0 <= i < offenses.len() && (#[trigger] offenses[i]) is Multiple;
    AttackView {
        test_name: "Hybrid Attack"@,
        attack_blocked: offenses.len() > 0,
        details: "混合攻击检测: 发现 "@ + decimal(offenses.len()) + " 种违规类型, "@ + if combined {
            "检测到多重违规组合"@
        } else if offenses.len() > 0 {
            "部分违规类型已检测"@
        } else {
            "攻击成功"@
        },
        malicious_providers: Seq::empty(),
        slashing_actions: offenses.len() as int,
    }
}

/// How a hybrid attack was dealt with, given the offenses.
pub fn judge_hybrid(offenses: &Vec<OffenseType>) -> (result: AttackTestResult)
    ensures
        result@ == hybrid_report(views(offenses@)),
{
    let ghost all = views(offenses@);
    let mut combined = false;
    let mut i: usize = 0;
    while i < offenses.len()
        invariant
            i <= offenses.len(),
            all == views(offenses@),
            combined == exists|j: int| 0 <= j < i && (#[trigger] all[j]) is Multiple,
        decreases offenses.len() - i,
    {
        assert(all[i as int] == offenses@[i as int]@);
        match &offenses[i] {
            OffenseType::Multiple(_) => {
                assert(all[i as int] is Multiple);
                combined = true;
            },
            _ => {},
        }
        i += 1;
    }
    let mut details = "混合攻击检测: 发现 ".to_string();
    push_decimal(&mut details, offenses.len() as u128);
    details.append(" 种违规类型, ");
    if combined {
        details.append("检测到多重违规组合");
    } else if offenses.len() > 0 {
        details.append("部分违规类型已检测");
    } else {
        details.append("攻击成功");
    }
    report("Hybrid Attack", offenses.len() > 0, details, offenses.len())
}

fn collect_offenses(list: &mut Vec<OffenseType>, found: ValidationResult)
    ensures
        views(final(list)@) == views(old(list)@) + found@.offenses,
{
    let ghost before = views(list@);
    let ghost added = found@.offenses;
    let mut found = found;
    list.append(&mut found.offenses);
    assert(views(list@) =~= before + added);
}

/// A provider cheats in several ways at once, at the current time.
pub fn test_hybrid_attack() -> (result: AttackTestResult)
    ensures
        exists|now: DateTime| result@ == hybrid_report(#[trigger] hybrid_offenses(now)),
        result@.attack_blocked,
{
    let now = utc_now();
    test_hybrid_attack_at(now)
}

/// A provider cheats in several ways at once, at the time `now`.
pub fn test_hybrid_attack_at(now: DateTime) -> (result: AttackTestResult)
    ensures
        result@ == hybrid_report(hybrid_offenses(now)),
        result@.attack_blocked,
{
    let validator = ResultValidator::default();
    let mut offenses: Vec<OffenseType> = Vec::new();
    assert(views(offenses@) =~= Seq::<OffenseView>::empty());
    let mut batch: Vec<ExeScriptCommandResult> = Vec::new();
    batch.push(
        ExeScriptCommandResult {
            index: 0,
            result: CommandResult::Error,
            stdout: None,
            stderr: None,
            message: None,
            is_batch_finished: true,
            event_date: now,
        },
    );
    assert(views(batch@) =~= single(CommandResult::Error, None, now));
    let format = validator.validate_format_at(batch.as_slice(), now);
    let ghost f = format@.offenses;
    collect_offenses(&mut offenses, format);
    assert(views(offenses@) =~= f);
    proof {
        reveal_strlit("cpu");
        reveal_strlit("gpu");
        assert("cpu"@[0] != "gpu"@[0]);
    }
    let mut reported: OrderedMap<String, Decimal> = one_resource(Decimal { micros: 25_000_000 });
    reported.insert("gpu".to_string(), Decimal { micros: 20_000_000 });
    assert(reported@ =~= hybrid_usage());
    let mut consensus: OrderedMap<String, Decimal> = one_resource(Decimal { micros: 10_000_000 });
    consensus.insert("gpu".to_string(), Decimal { micros: 5_000_000 });
    assert(consensus@ =~= hybrid_fair_usage());
    let usage = validator.validate_resource_usage(&reported, &consensus);
    collect_offenses(&mut offenses, usage);
    let cost = validator.validate_cost(
        Decimal { micros: 1_500_000 },
        Decimal { micros: 1_000_000 },
    );
    assert(exceeds(
        Decimal { micros: 1_500_000 },
        Decimal { micros: 1_000_000 },
        Decimal { micros: 50_000 },
    ));
    collect_offenses(&mut offenses, cost);
    judge_hybrid(&offenses)
}

// ---------------------------------------------------------------- exhaustion

/// The resources that are meant to exhaust the system. The first is the largest
/// number there is.
pub open spec fn exhausting_usage() -> Seq<(Seq<char>, Decimal)> {
    seq![
        ("cpu"@, Decimal { micros: i64::MAX }),
        ("gpu"@, units(100_000_000)),
        ("mem"@, units(10_000_000_000)),
    ]
}

/// Whether an offense is usage of more than a hundred times what is expected.
pub open spec fn is_exhausting(offense: OffenseView) -> bool {
    match offense {
        OffenseView::ResourceInflation { inflation_ratio, .. } => match inflation_ratio {
            Ratio::Finite(value) => value.micros > 100_000_000,
            Ratio::Infinite => true,
        },
        _ => false,
    }
}

/// How exhausting usage was dealt with, given what validation found.
pub open spec fn exhaustion_report(found: ValidationView) -> AttackView {
    let noticed = exists|i: int|
        0 <= i < found.offenses.len() && is_exhausting(#[trigger] found.offenses[i]);
    AttackView {
        test_name: "Resource Exhaustion Attack"@,
        attack_blocked: !found.is_valid,
        details: if !found.is_valid && noticed {
            "资源耗尽攻击已检测: 检测到异常大的资源使用量"@
        } else if !found.is_valid {
            "资源耗尽攻击: 部分检测到异常"@
        } else {
            "资源耗尽攻击: 未检测到异常"@
        },
        malicious_providers: Seq::empty(),
        slashing_actions: if noticed {
            found.offenses.len() as int
        } else {
            0
        },
    }
}

/// How exhausting usage was dealt with, given what validation found.
pub fn judge_exhaustion(found: &ValidationResult) -> (result: AttackTestResult)
    ensures
        result@ == exhaustion_report(found@),
{
    let ghost all = views(found.offenses@);
    let mut noticed = false;
    let mut i: usize = 0;
    while i < found.offenses.len()
        invariant
            i <= found.offenses.len(),
            all == views(found.offenses@),
            noticed == exists|j: int| 0 <= j < i && is_exhausting(#[trigger] all[j]),
        decreases found.offenses.len() - i,
    {
        assert(all[i as int] == found.offenses@[i as int]@);
        let exhausting = match &found.offenses[i] {
            OffenseType::ResourceInflation { inflation_ratio, .. } => match inflation_ratio {
                Ratio::Finite(value) => value.micros > 100_000_000,
                Ratio::Infinite => true,
            },
            _ => false,
        };
        assert(exhausting == is_exhausting(all[i as int]));
        if exhausting {
            noticed = true;
        }
        i += 1;
    }
    proof {
        assert(all.len() == i);
        if noticed {
            let j = choose|j: int| 0 <= j < i && is_exhausting(#[trigger] all[j]);
            assert(is_exhausting(found@.offenses[j]));
        }
    }
    let details = if !found.is_valid && noticed {
        "资源耗尽攻击已检测: 检测到异常大的资源使用量".to_string()
    } else if !found.is_valid {
        "资源耗尽攻击: 部分检测到异常".to_string()
    } else {
        "资源耗尽攻击: 未检测到异常".to_string()
    };
    report(
        "Resource Exhaustion Attack",
        !found.is_valid,
        details,
        if noticed {
            found.offenses.len()
        } else {
            0
        },
    )
}

/// A provider reports enormous usage.
pub fn test_resource_exhaustion_attack() -> (result: AttackTestResult)
    ensures
        result@ == exhaustion_report(
            usage_check(exhausting_usage(), fair_usage(), Decimal { micros: 100_000 }),
        ),
        result@.attack_blocked,
        result@.slashing_actions == 3,
{
    let validator = ResultValidator::default();
    let reported = three_resources(
        Decimal { micros: i64::MAX },
        Decimal { micros: 100_000_000_000_000 },
        Decimal { micros: 10_000_000_000_000_000 },
    );
    let consensus = three_resources(
        Decimal { micros: 10_000_000 },
        Decimal { micros: 5_000_000 },
        Decimal { micros: 100_000_000 },
    );
    let found = validator.validate_resource_usage(&reported, &consensus);
    proof {
        lemma_three_offenses(
            Decimal { micros: i64::MAX },
            units(100_000_000),
            units(10_000_000_000),
        );
        assert(is_exhausting(found@.offenses[0]));
    }
    judge_exhaustion(&found)
}

// ---------------------------------------------------------------- injection

/// Results with a wrong index and a repeated one.
pub open spec fn injected_batch(now: DateTime) -> Seq<CommandView> {
    seq![
        plain_command(0, CommandResult::Success, None, true, now),
        plain_command(5, CommandResult::Success, None, true, now),
        plain_command(0, CommandResult::Success, None, false, now),
    ]
}

/// How injected results were dealt with, given what validation found.
pub open spec fn injection_report(found: ValidationView) -> AttackView {
    let violated = exists|i: int|
        0 <= i < found.offenses.len() && (#[trigger] found.offenses[i]) is FormatViolation;
    AttackView {
        test_name: "Format Injection Attack"@,
        attack_blocked: !found.is_valid,
        details: if !found.is_valid && violated {
            "格式注入攻击已检测: 发现 "@ + decimal(found.errors.len()) + " 个格式违规"@
        } else if !found.is_valid {
            "格式注入攻击: 部分检测到异常"@
        } else {
            "格式注入攻击: 未检测到异常"@
        },
        malicious_providers: Seq::empty(),
        slashing_actions: if violated {
            found.offenses.len() as int
        } else {
            0
        },
    }
}

/// How injected results were dealt with, given what validation found.
pub fn judge_injection(found: &ValidationResult) -> (result: AttackTestResult)
    ensures
        result@ == injection_report(found@),
{
    let ghost all = views(found.offenses@);
    let mut violated = false;
    let mut i: usize = 0;
    while i < found.offenses.len()
        invariant
            i <= found.offenses.len(),
            all == views(found.offenses@),
            violated == exists|j: int| 0 <= j < i && (#[trigger] all[j]) is FormatViolation,
        decreases found.offenses.len() - i,
    {
        assert(all[i as int] == found.offenses@[i as int]@);
        match &found.offenses[i] {
            OffenseType::FormatViolation { .. } => {
                assert(all[i as int] is FormatViolation);
                violated = true;
            },
            _ => {},
        }
        i += 1;
    }
    let details = if !found.is_valid && violated {
        let mut text = "格式注入攻击已检测: 发现 ".to_string();
        push_decimal(&mut text, found.errors.len() as u128);
        text.append(" 个格式违规");
        text
    } else if !found.is_valid {
        "格式注入攻击: 部分检测到异常".to_string()
    } else {
        "格式注入攻击: 未检测到异常".to_string()
    };
    report(
        "Format Injection Attack",
        !found.is_valid,
        details,
        if violated {
            found.offenses.len()
        } else {
            0
        },
    )
}

/// A provider returns results with wrong indices, at the current time.
pub fn test_format_injection_attack() -> (result: AttackTestResult)
    ensures
        exists|now: DateTime|
            result@ == injection_report(#[trigger] format_check(injected_batch(now), now)),
        result@.attack_blocked,
        result@.slashing_actions == 3,
{
    let now = utc_now();
    test_format_injection_attack_at(now)
}

/// A provider returns results with wrong indices, at the time `now`.
pub fn test_format_injection_attack_at(now: DateTime) -> (result: AttackTestResult)
    ensures
        result@ == injection_report(format_check(injected_batch(now), now)),
        result@.attack_blocked,
        result@.slashing_actions == 3,
{
    let validator = ResultValidator::default();
    let mut batch: Vec<ExeScriptCommandResult> = Vec::new();
    batch.push(injected_command(0, true, now));
    batch.push(injected_command(5, true, now));
    batch.push(injected_command(0, false, now));
    assert(views(batch@) =~= injected_batch(now));
    let found = validator.validate_format_at(batch.as_slice(), now);
    proof {
        lemma_injection(now);
        assert(found@.offenses[0] is FormatViolation);
    }
    judge_injection(&found)
}

proof fn lemma_injection(now: DateTime)
    ensures
        ({
            let found = format_check(injected_batch(now), now);
            &&& found.offenses.len() == 3
            &&& found.offenses[0] is FormatViolation
        }),
{
    let batch = injected_batch(now);
    let numbers = indices(batch);
    assert(numbers =~= seq![0u32, 5u32, 0u32]);
    assert(numbers.drop_last() =~= seq![0u32, 5u32]);
    assert(numbers.drop_last().drop_last() =~= seq![0u32]);
    assert(seq![0u32].drop_last() =~= Seq::<u32>::empty());
    reveal_with_fuel(ascending, 4);
    reveal_with_fuel(placed, 4);
    assert(ascending(seq![0u32]) =~= seq![0u32]);
    assert(ascending(seq![0u32, 5u32]) =~= seq![0u32, 5u32]);
    assert(seq![0u32, 5u32].drop_last() =~= seq![0u32]);
    assert(ascending(numbers) =~= seq![0u32, 0u32, 5u32]);
    let sorted = seq![0u32, 0u32, 5u32];
    assert(sorted.drop_last() =~= seq![0u32, 0u32]);
    assert(seq![0u32, 0u32].drop_last() =~= seq![0u32]);
    reveal_with_fuel(gaps, 4);
    assert(gaps(seq![0u32]).len() == 0);
    assert(gaps(seq![0u32, 0u32]).len() == 1);
    assert(gaps(sorted).len() == 2);
    reveal_with_fuel(repeats, 4);
    assert(repeats(seq![0u32]).len() == 0);
    assert(!seq![0u32].contains(5u32));
    assert(repeats(seq![0u32, 5u32]).len() == 0);
    assert(seq![0u32, 5u32][0] == 0u32);
    assert(repeats(numbers).len() == 1);
    reveal_with_fuel(future_times, 4);
    assert(future_times(batch, now).len() == 0);
}

fn injected_command(index: u32, is_batch_finished: bool, event_date: DateTime) -> (made:
    ExeScriptCommandResult)
    ensures
        made@ == plain_command(index, CommandResult::Success, None, is_batch_finished, event_date),
{
    ExeScriptCommandResult {
        index,
        result: CommandResult::Success,
        stdout: None,
        stderr: None,
        message: None,
        is_batch_finished,
        event_date,
    }
}

// ---------------------------------------------------------------- laws

/// Whether an offense is a reported usage that is too far off.
pub open spec fn is_inflation(offense: OffenseView) -> bool {
    offense is ResourceInflation
}

/// Whether the check of an attack came out as validation did: it was blocked
/// exactly where the result was not valid, and nobody is named.
pub open spec fn follows(report: AttackView, found: ValidationView) -> bool {
    report.attack_blocked == !found.is_valid && report.malicious_providers.len() == 0
}

proof fn lemma_plain_inflations(offenses: Seq<OffenseView>)
    ensures
        plain_inflations(offenses) == offenses.filter(|o: OffenseView| is_inflation(o)).len(),
    decreases offenses.len(),
{
    reveal(Seq::filter);
    if offenses.len() > 0 {
        lemma_plain_inflations(offenses.drop_last());
    }
}

/// Every inflated resource counts as a penalty, be it named by itself or within a
/// combined offense; one more offense adds what it holds.
pub proof fn law_inflations_are_counted(
    found: ValidationView,
    parts: Seq<OffenseView>,
    offense: OffenseView,
)
    ensures
        follows(inflation_report(found), found),
        inflation_report(
            ValidationView { offenses: Seq::empty(), ..found },
        ).slashing_actions == 0,
        inflation_report(
            ValidationView {
                offenses: found.offenses.push(OffenseView::Multiple(parts)),
                ..found
            },
        ).slashing_actions == inflation_report(found).slashing_actions + parts.filter(
            |o: OffenseView| is_inflation(o),
        ).len(),
        !(offense is Multiple) ==> inflation_report(
            ValidationView { offenses: found.offenses.push(offense), ..found },
        ).slashing_actions == inflation_report(found).slashing_actions + if is_inflation(offense) {
            1int
        } else {
            0int
        },
{
    lemma_plain_inflations(parts);
    assert(found.offenses.push(OffenseView::Multiple(parts)).drop_last() =~= found.offenses);
    assert(found.offenses.push(offense).drop_last() =~= found.offenses);
}

/// The other checks follow validation too. A penalty is counted where the offense
/// that the attack is about is among those found: one for a wrong cost or a
/// shifted time, and as many as there are offenses for exhaustion and injection.
pub proof fn law_checks_follow_validation(
    found: ValidationView,
    reported: Decimal,
    consensus: Decimal,
    time: DateTime,
    expected: DateTime,
    max_secs: int,
)
    ensures
        ({
            let fraud = found.offenses.filter(|o: OffenseView| o is CostFraud).len() > 0;
            let shifted = found.offenses.filter(|o: OffenseView| o is TimestampAnomaly).len() > 0;
            let malformed = found.offenses.filter(|o: OffenseView| o is FormatViolation).len() > 0;
            let huge = found.offenses.filter(|o: OffenseView| is_exhausting(o)).len() > 0;
            let cost = cost_fraud_report(found, reported, consensus);
            let shift = manipulation_report(found, time, expected, max_secs);
            let exhaustion = exhaustion_report(found);
            let injection = injection_report(found);
            &&& follows(cost, found)
            &&& follows(shift, found)
            &&& follows(exhaustion, found)
            &&& follows(injection, found)
            &&& cost.slashing_actions == if fraud {
                1int
            } else {
                0int
            }
            &&& shift.slashing_actions == if shifted {
                1int
            } else {
                0int
            }
            &&& exhaustion.slashing_actions == if huge {
                found.offenses.len() as int
            } else {
                0int
            }
            &&& injection.slashing_actions == if malformed {
                found.offenses.len() as int
            } else {
                0int
            }
        }),
{
    lemma_some_found(found.offenses, |o: OffenseView| o is CostFraud);
    lemma_some_found(found.offenses, |o: OffenseView| o is TimestampAnomaly);
    lemma_some_found(found.offenses, |o: OffenseView| o is FormatViolation);
    lemma_some_found(found.offenses, |o: OffenseView| is_exhausting(o));
}

proof fn lemma_some_found(offenses: Seq<OffenseView>, wanted: spec_fn(OffenseView) -> bool)
    ensures
        offenses.filter(wanted).len() > 0 <==> exists|i: int|
            0 <= i < offenses.len() && wanted(#[trigger] offenses[i]),
{
    broadcast use vstd::seq_lib::group_filter_ensures;

    let some = offenses.filter(wanted);
    if some.len() > 0 {
        assert(wanted(some[0]));
        assert(some.contains(some[0]));
        offenses.lemma_filter_contains_rev(wanted, some[0]);
        let i = choose|i: int| 0 <= i < offenses.len() && offenses[i] == some[0];
        assert(wanted(offenses[i]));
    }
    if exists|i: int| 0 <= i < offenses.len() && wanted(#[trigger] offenses[i]) {
        let i = choose|i: int| 0 <= i < offenses.len() && wanted(#[trigger] offenses[i]);
        assert(some.contains(offenses[i]));
    }
}

/// Usage exhausts the system exactly where it is more than a hundred times what is
/// expected, or where nothing is expected.
pub proof fn law_exhaustion_is_a_hundredfold(offense: OffenseView)
    ensures
        is_exhausting(offense) <==> match offense {
            OffenseView::ResourceInflation { inflation_ratio: Ratio::Infinite, .. } => true,
            OffenseView::ResourceInflation { inflation_ratio: Ratio::Finite(ratio), .. } => {
                ratio.micros > 100 * 1_000_000
            },
            _ => false,
        },
{
}

/// A hybrid attack is blocked where anything was found, and everything that was
/// found counts. A combined offense among it is pointed out.
pub proof fn law_hybrid_attack_counts_offenses(offenses: Seq<OffenseView>)
    ensures
        ({
            let report = hybrid_report(offenses);
            let together = offenses.filter(|o: OffenseView| o is Multiple).len() > 0;
            &&& report.attack_blocked <==> offenses.len() > 0
            &&& report.slashing_actions == offenses.len()
            &&& report.malicious_providers.len() == 0
            &&& report.details == "混合攻击检测: 发现 "@ + decimal(offenses.len())
                + " 种违规类型, "@ + if together {
                "检测到多重违规组合"@
            } else if offenses.len() > 0 {
                "部分违规类型已检测"@
            } else {
                "攻击成功"@
            }
        }),
{
    lemma_some_found(offenses, |o: OffenseView| o is Multiple);
}

/// An escalating attack is blocked where it was noticed at two stages; the attacker
/// is named then. That it got worse is said where the last severity is above the
/// first.
pub proof fn law_escalation_is_noticed_twice(
    noticed: int,
    levels: Seq<OffenseSeverity>,
    provider: Seq<u8>,
)
    ensures
        ({
            let report = escalation_report(noticed, levels, provider);
            let worse = levels.len() >= 2 && rank(levels[0]) < rank(levels[levels.len() - 1]);
            &&& report.attack_blocked <==> noticed >= 2
            &&& report.slashing_actions == noticed
            &&& report.malicious_providers == if noticed >= 2 {
                seq![provider]
            } else {
                seq![]
            }
            &&& report.details == "渐进式攻击检测: 发现 "@ + decimal(noticed as nat)
                + " 个违规阶段, 严重程度变化: ["@ + joined_levels(levels) + "], 攻击"@
                + if noticed >= 2 && worse {
                "已阻止并识别严重程度升级"@
            } else {
                "部分成功"@
            }
        }),
{
}

/// Whenever it is played, the first offense of the one that offends again is
/// minor and the second moderate.
pub proof fn law_repeated_offense_is_moderate(now: DateTime)
    requires
        now.in_range(),
        now.spec_nanos() < 1_000_000_000,
        now.spec_secs() + 100 <= MAX_SECS,
    ensures
        slashing_report(now).attack_blocked,
        slashing_report(now).slashing_actions == 3,
        slashing_report(now).malicious_providers == seq![
            named_node("repeat_offender"@),
            named_node("first_time"@),
        ],
        slashing_report(now).details == "惩罚机制工作正常: 首次违规严重程度 "@ + "Minor"@
            + ", 重复违规严重程度 "@ + "Moderate"@,
{
    lemma_round_lengths(now);
    reveal_with_fuel(slashed, 3);
    let first = first_offenses(now);
    let second = repeated_offense(now)[0];
    let window = 3600;
    law_first_offense_is_minor(Seq::empty(), window, first[0]);
    let once = updated(Seq::empty(), first[0]);
    let twice = updated(once, first[1]);
    assert(keys_distinct(Seq::<(Seq<u8>, (usize, Option<DateTime>))>::empty()));
    law_history_counts(Seq::empty(), first[0], first[0].provider_id);
    lemma_upsert_lookup(
        Seq::<(Seq<u8>, (usize, Option<DateTime>))>::empty(),
        first[0].provider_id,
        (1usize, Some(first[0].offense_time)),
        first[1].provider_id,
    );
    law_history_counts(once, first[1], first[0].provider_id);
    law_later_is_that_much_later(now, 100);
    assert(whole_seconds(elapsed_nanos(second.offense_time, now)) == 100);
    assert(severity(twice, window, second) == OffenseSeverity::Moderate) by {
        law_lone_offense_is_not_severe(twice, window, second);
        law_severity_is_weighed(twice, window, second);
    }
    assert(first_round(now).actions[0].severity == severity(Seq::empty(), window, first[0]));
    assert(first_round(now).evaluator.history == twice);
    assert(second_round(now).actions[0].severity == severity(twice, window, second));
}

/// What the reports say: how many resources were inflated, both costs and how far
/// the one is off in per cent, by how many seconds a time is off and how many are
/// allowed, and how many violations of the format there are. What was not noticed
/// is said so.
pub proof fn law_checks_say_what_was_found(
    found: ValidationView,
    reported: Decimal,
    consensus: Decimal,
    time: DateTime,
    expected: DateTime,
    max_secs: int,
)
    ensures
        ({
            let fraud = found.offenses.filter(|o: OffenseView| o is CostFraud).len() > 0;
            let shifted = found.offenses.filter(|o: OffenseView| o is TimestampAnomaly).len() > 0;
            let malformed = found.offenses.filter(|o: OffenseView| o is FormatViolation).len() > 0;
            let huge = found.offenses.filter(|o: OffenseView| is_exhausting(o)).len() > 0;
            &&& inflation_report(found).details == if found.is_valid {
                "资源夸大攻击: 未检测到异常"@
            } else {
                "资源夸大攻击已检测: 发现 "@ + decimal(
                    inflation_report(found).slashing_actions as nat,
                ) + " 个资源夸大违规"@
            }
            &&& cost_fraud_report(found, reported, consensus).details == if !found.is_valid
                && fraud {
                "成本欺诈攻击已检测: 报告成本 "@ + rounded_text(
                    reported.micros as int,
                    1_000_000,
                    2,
                ) + ", 共识成本 "@ + rounded_text(consensus.micros as int, 1_000_000, 2)
                    + ", 差异 "@ + rounded_text(
                    (reported.micros - consensus.micros) * 100,
                    consensus.micros as nat,
                    2,
                ) + "%"@
            } else {
                "成本欺诈攻击: 未检测到异常"@
            }
            &&& manipulation_report(found, time, expected, max_secs).details == if !found.is_valid
                && shifted {
                "时间戳篡改攻击已检测: 时间差 "@ + decimal_int(
                    whole_seconds(elapsed_nanos(time, expected)),
                ) + " 秒 (超过允许的 "@ + decimal_int(max_secs) + " 秒)"@
            } else {
                "时间戳篡改攻击: 未检测到异常"@
            }
            &&& exhaustion_report(found).details == if found.is_valid {
                "资源耗尽攻击: 未检测到异常"@
            } else if huge {
                "资源耗尽攻击已检测: 检测到异常大的资源使用量"@
            } else {
                "资源耗尽攻击: 部分检测到异常"@
            }
            &&& injection_report(found).details == if found.is_valid {
                "格式注入攻击: 未检测到异常"@
            } else if malformed {
                "格式注入攻击已检测: 发现 "@ + decimal(found.errors.len()) + " 个格式违规"@
            } else {
                "格式注入攻击: 部分检测到异常"@
            }
        }),
{
    lemma_some_found(found.offenses, |o: OffenseView| o is CostFraud);
    lemma_some_found(found.offenses, |o: OffenseView| o is TimestampAnomaly);
    lemma_some_found(found.offenses, |o: OffenseView| o is FormatViolation);
    lemma_some_found(found.offenses, |o: OffenseView| is_exhausting(o));
}

/// Whenever it is played, the escalating attacker is judged leniently once and
/// moderately from then on.
pub proof fn law_escalation_is_judged(now: DateTime)
    requires
        now.in_range(),
        now.spec_nanos() < 1_000_000_000,
        now.spec_secs() + 200 <= MAX_SECS,
    ensures
        escalating_levels(now, 3) == seq![
            OffenseSeverity::Minor,
            OffenseSeverity::Moderate,
            OffenseSeverity::Moderate,
        ],
{
    reveal_with_fuel(escalating_history, 4);
    let none = Seq::<(Seq<u8>, (usize, Option<DateTime>))>::empty();
    let a = escalating_offense(0, now);
    let b = escalating_offense(1, now);
    let c = escalating_offense(2, now);
    let one = updated(none, a);
    let two = updated(one, b);
    law_later_is_that_much_later(now, 0);
    law_later_is_that_much_later(now, 100);
    law_later_is_that_much_later(now, 200);
    lemma_instant(now.spec_secs() + 100, now.spec_nanos());
    lemma_instant(now.spec_secs() + 200, now.spec_nanos());
    law_first_offense_is_minor(none, 3600, a);
    law_history_counts(none, a, a.provider_id);
    lemma_upsert_lookup(none, a.provider_id, (1usize, Some(a.offense_time)), a.provider_id);
    law_history_counts(one, b, b.provider_id);
    law_lone_offense_is_not_severe(one, 3600, b);
    law_severity_is_weighed(one, 3600, b);
    law_lone_offense_is_not_severe(two, 3600, c);
    law_severity_is_weighed(two, 3600, c);
    assert(whole_seconds(elapsed_nanos(b.offense_time, a.offense_time)) == 100);
    assert(whole_seconds(elapsed_nanos(c.offense_time, b.offense_time)) == 100);
    assert(escalating_levels(now, 3) =~= seq![
        OffenseSeverity::Minor,
        OffenseSeverity::Moderate,
        OffenseSeverity::Moderate,
    ]);
}

/// Severities are listed in order: the first by itself, each further one behind a
/// comma.
pub proof fn law_levels_are_listed(levels: Seq<OffenseSeverity>, level: OffenseSeverity)
    ensures
        joined_levels(seq![]) == Seq::<char>::empty(),
        joined_levels(levels.push(level)) == (if levels.len() == 0 {
            severity_text(level)
        } else {
            joined_levels(levels) + ", "@ + severity_text(level)
        }),
{
    assert(levels.push(level).drop_last() =~= levels);
}

} // verus!
