//! Penalties for malicious providers.
//!
//! A penalty is a fixed amount or a share of the stake. It grows with every
//! offense of the provider, up to a limit.
#[allow(unused_imports)]
use crate::consensus::{count, lemma_count_bound};
use crate::fixed::{push_rounded, Quantity};
#[allow(unused_imports)]
use crate::fixed::rounded_text;
use crate::node::NodeId;
use crate::ordered_map::OrderedMap;
#[allow(unused_imports)]
use crate::ordered_map::{
    find, keys_distinct, keys_of, lemma_find_at, lemma_upsert_lookup, lookup, upsert,
};
use crate::text::push_decimal;
#[allow(unused_imports)]
use crate::text::decimal;
use crate::time::{utc_now, DateTime};
#[allow(unused_imports)]
use crate::time::{elapsed_nanos, whole_seconds};
#[allow(unused_imports)]
use crate::views::views;
use vstd::prelude::*;

pub use crate::offense::{OffenseContext, OffenseSeverity, OffenseType};
#[allow(unused_imports)]
use crate::offense::{severity_text, ContextView, OffenseView};
pub use crate::severity::SeverityEvaluator;
#[allow(unused_imports)]
use crate::severity::{
    countable, law_first_offense_is_minor, law_history_counts, law_lone_offense_is_not_severe,
    law_patterns_are_graded, law_severity_is_weighed, lemma_countable, severity, updated,
    EvaluatorView,
};

verus! {

/// How a penalty is computed.
#[derive(Clone, Copy, Debug, PartialEq, Eq, Structural)]
pub enum PenaltyMode {
    /// An amount that does not depend on the stake.
    FixedAmount,
    /// A share of the stake.
    Proportional,
    /// The larger of the two.
    Hybrid,
}

/// The rules for penalties.
#[derive(Debug, PartialEq, Eq)]
pub struct SlashingConfig {
    /// How penalties are computed.
    pub penalty_mode: PenaltyMode,
    /// The fixed amount for a first offense.
    pub base_penalty: Quantity,
    /// The share of the stake for a first offense.
    pub base_slash_ratio: Quantity,
    /// The factor by which each further offense raises the penalty.
    pub repeat_offense_multiplier: Quantity,
    /// The highest fixed amount.
    pub max_penalty: Quantity,
    /// The highest share of the stake.
    pub max_slash_ratio: Quantity,
    /// The least penalty on a stake.
    pub min_penalty_amount: Quantity,
    /// The highest penalty on a stake.
    pub max_penalty_amount: Option<Quantity>,
    /// The share of the stake for each severity.
    pub severity_ratios: OrderedMap<OffenseSeverity, Quantity>,
}

/// The mathematical value of a [`SlashingConfig`].
pub struct ConfigView {
    pub penalty_mode: PenaltyMode,
    pub base_penalty: Quantity,
    pub base_slash_ratio: Quantity,
    pub repeat_offense_multiplier: Quantity,
    pub max_penalty: Quantity,
    pub max_slash_ratio: Quantity,
    pub min_penalty_amount: Quantity,
    pub max_penalty_amount: Option<Quantity>,
    pub severity_ratios: Seq<(OffenseSeverity, Quantity)>,
}

impl View for SlashingConfig {
    type V = ConfigView;

    open spec fn view(&self) -> ConfigView {
        ConfigView {
            penalty_mode: self.penalty_mode,
            base_penalty: self.base_penalty,
            base_slash_ratio: self.base_slash_ratio,
            repeat_offense_multiplier: self.repeat_offense_multiplier,
            max_penalty: self.max_penalty,
            max_slash_ratio: self.max_slash_ratio,
            min_penalty_amount: self.min_penalty_amount,
            max_penalty_amount: self.max_penalty_amount,
            severity_ratios: self.severity_ratios@,
        }
    }
}

impl Clone for SlashingConfig {
    fn clone(&self) -> (copy: Self)
        ensures
            copy@ == self@,
    {
        SlashingConfig {
            penalty_mode: self.penalty_mode,
            base_penalty: self.base_penalty,
            base_slash_ratio: self.base_slash_ratio,
            repeat_offense_multiplier: self.repeat_offense_multiplier,
            max_penalty: self.max_penalty,
            max_slash_ratio: self.max_slash_ratio,
            min_penalty_amount: self.min_penalty_amount,
            max_penalty_amount: self.max_penalty_amount,
            severity_ratios: self.severity_ratios.clone(),
        }
    }
}

/// The shares of the stake by default: 0.5 per cent for a minor offense, 1 per
/// cent for a moderate one and 5 per cent for a severe one.
pub open spec fn default_ratios() -> Seq<(OffenseSeverity, Quantity)> {
    seq![
        (OffenseSeverity::Minor, Quantity { micros: 5_000 }),
        (OffenseSeverity::Moderate, Quantity { micros: 10_000 }),
        (OffenseSeverity::Severe, Quantity { micros: 50_000 }),
    ]
}

/// The rules by default.
pub open spec fn default_config() -> ConfigView {
    ConfigView {
        penalty_mode: PenaltyMode::Proportional,
        base_penalty: Quantity { micros: 1_000_000 },
        base_slash_ratio: Quantity { micros: 10_000 },
        repeat_offense_multiplier: Quantity { micros: 1_500_000 },
        max_penalty: Quantity { micros: 10_000_000 },
        max_slash_ratio: Quantity { micros: 100_000 },
        min_penalty_amount: Quantity { micros: 1_000_000 },
        max_penalty_amount: Some(Quantity { micros: 100_000_000 }),
        severity_ratios: default_ratios(),
    }
}

impl Default for SlashingConfig {
    fn default() -> (config: Self)
        ensures
            config@ == default_config(),
    {
        let mut severity_ratios: OrderedMap<OffenseSeverity, Quantity> = OrderedMap::new();
        severity_ratios.insert(OffenseSeverity::Minor, Quantity { micros: 5_000 });
        assert(severity_ratios@ =~= default_ratios().take(1));
        severity_ratios.insert(OffenseSeverity::Moderate, Quantity { micros: 10_000 });
        assert(severity_ratios@ =~= default_ratios().take(2));
        severity_ratios.insert(OffenseSeverity::Severe, Quantity { micros: 50_000 });
        assert(severity_ratios@ =~= default_ratios());
        SlashingConfig {
            penalty_mode: PenaltyMode::Proportional,
            base_penalty: Quantity { micros: 1_000_000 },
            base_slash_ratio: Quantity { micros: 10_000 },
            repeat_offense_multiplier: Quantity { micros: 1_500_000 },
            max_penalty: Quantity { micros: 10_000_000 },
            max_slash_ratio: Quantity { micros: 100_000 },
            min_penalty_amount: Quantity { micros: 1_000_000 },
            max_penalty_amount: Some(Quantity { micros: 100_000_000 }),
            severity_ratios,
        }
    }
}

// ---------------------------------------------------------------- penalties

/// Parts in a millionth: growth is computed with eighteen digits after the
/// point.
pub const FINE: u64 = 1_000_000_000_000;

/// A number of millionths after `n` multiplications by a factor, with eighteen
/// digits after the point and rounded down.
pub open spec fn grown(base: int, factor: int, n: nat) -> int
    decreases n,
{
    if n == 0 {
        base * FINE
    } else {
        grown(base, factor, (n - 1) as nat) * factor / 1_000_000
    }
}

/// The lesser of two numbers.
pub open spec fn least(a: int, b: int) -> int {
    if a <= b {
        a
    } else {
        b
    }
}

/// The larger of two numbers.
pub open spec fn largest(a: int, b: int) -> int {
    if a >= b {
        a
    } else {
        b
    }
}

/// The penalty that does not depend on the stake, in millionths.
pub open spec fn fixed_penalty(config: ConfigView, offenses: nat) -> int {
    least(
        grown(
            config.base_penalty.micros as int,
            config.repeat_offense_multiplier.micros as int,
            (offenses - 1) as nat,
        ) / (FINE as int),
        config.max_penalty.micros as int,
    )
}

/// The share of the stake for a first offense of a severity.
pub open spec fn base_ratio(config: ConfigView, severity: Option<OffenseSeverity>) -> int {
    match severity {
        Some(level) => match lookup(config.severity_ratios, level) {
            Some(ratio) => ratio.micros as int,
            None => config.base_slash_ratio.micros as int,
        },
        None => config.base_slash_ratio.micros as int,
    }
}

/// The share of the stake, with eighteen digits after the point.
pub open spec fn slash_ratio(
    config: ConfigView,
    offenses: nat,
    severity: Option<OffenseSeverity>,
) -> int {
    least(
        grown(
            base_ratio(config, severity),
            config.repeat_offense_multiplier.micros as int,
            (offenses - 1) as nat,
        ),
        config.max_slash_ratio.micros * FINE,
    )
}

/// A penalty within its limits and no larger than the stake.
pub open spec fn limited(config: ConfigView, stake: int, penalty: int) -> int {
    let raised = largest(penalty, config.min_penalty_amount.micros as int);
    let capped = match config.max_penalty_amount {
        Some(max) => least(raised, max.micros as int),
        None => raised,
    };
    least(capped, stake)
}

/// The penalty on a stake, in millionths. Without a stake it is the fixed one.
pub open spec fn proportional_penalty(
    config: ConfigView,
    offenses: nat,
    stake: int,
    severity: Option<OffenseSeverity>,
) -> int {
    if stake <= 0 {
        fixed_penalty(config, offenses)
    } else {
        limited(
            config,
            stake,
            stake * slash_ratio(config, offenses, severity) / 1_000_000_000_000_000_000,
        )
    }
}

/// The penalty for a provider with so many offenses.
pub open spec fn penalty(
    config: ConfigView,
    offenses: nat,
    stake: Option<Quantity>,
    severity: Option<OffenseSeverity>,
) -> int {
    let held: int = match stake {
        Some(amount) => amount.micros as int,
        None => 0,
    };
    if offenses == 0 {
        0
    } else {
        match config.penalty_mode {
            PenaltyMode::FixedAmount => fixed_penalty(config, offenses),
            PenaltyMode::Proportional => proportional_penalty(config, offenses, held, severity),
            PenaltyMode::Hybrid => largest(
                fixed_penalty(config, offenses),
                proportional_penalty(config, offenses, held, severity),
            ),
        }
    }
}

proof fn lemma_grown_positive(base: int, factor: int, n: nat)
    requires
        base >= 0,
        factor >= 0,
    ensures
        grown(base, factor, n) >= 0,
    decreases n,
{
    if n > 0 {
        lemma_grown_positive(base, factor, (n - 1) as nat);
        let x = grown(base, factor, (n - 1) as nat);
        assert(x * factor / 1_000_000 >= 0) by (nonlinear_arith)
            requires
                x >= 0,
                factor >= 0,
        ;
    }
}

/// With a factor of at least one, growth never shrinks.
pub proof fn lemma_grown_monotone(base: int, factor: int, m: nat, n: nat)
    requires
        base >= 0,
        factor >= 1_000_000,
        m <= n,
    ensures
        grown(base, factor, m) <= grown(base, factor, n),
    decreases n,
{
    if m < n {
        lemma_grown_monotone(base, factor, m, (n - 1) as nat);
        lemma_grown_positive(base, factor, (n - 1) as nat);
        let x = grown(base, factor, (n - 1) as nat);
        assert(x * factor / 1_000_000 >= x) by (nonlinear_arith)
            requires
                x >= 0,
                factor >= 1_000_000,
        ;
    }
}

/// Where a multiplication changes nothing, no further one does.
proof fn lemma_grown_fixed(base: int, factor: int, m: nat, n: nat)
    requires
        grown(base, factor, m + 1) == grown(base, factor, m),
        m <= n,
    ensures
        grown(base, factor, n) == grown(base, factor, m),
    decreases n,
{
    if m < n {
        lemma_grown_fixed(base, factor, m, (n - 1) as nat);
        assert(grown(base, factor, n) == grown(base, factor, (n - 1) as nat) * factor / 1_000_000);
        assert(grown(base, factor, m + 1) == grown(base, factor, m) * factor / 1_000_000);
    }
}

proof fn lemma_share_bounds(stake: int, ratio: int)
    requires
        stake >= 0,
        ratio >= 0,
    ensures
        0 <= stake * ratio / 1_000_000_000_000_000_000,
        ratio >= 1_000_000_000_000_000_000 ==> stake * ratio / 1_000_000_000_000_000_000 >= stake,
        ratio <= 1_000_000_000_000_000_000 ==> stake * ratio / 1_000_000_000_000_000_000 <= stake,
{
    assert(0 <= stake * ratio) by (nonlinear_arith)
        requires
            stake >= 0,
            ratio >= 0,
    ;
    if ratio >= 1_000_000_000_000_000_000 {
        assert(stake * ratio >= stake * 1_000_000_000_000_000_000) by (nonlinear_arith)
            requires
                stake >= 0,
                ratio >= 1_000_000_000_000_000_000,
        ;
    }
    if ratio <= 1_000_000_000_000_000_000 {
        assert(stake * ratio <= stake * 1_000_000_000_000_000_000) by (nonlinear_arith)
            requires
                stake >= 0,
                ratio <= 1_000_000_000_000_000_000,
        ;
    }
}

/// A limit holds with eighteen digits where it holds with six.
proof fn lemma_limit_in_millionths(value: int, limit: int)
    ensures
        least(value, limit * FINE) / (FINE as int) == least(value / (FINE as int), limit),
{
}

proof fn lemma_fixed_bounds(config: ConfigView, offenses: nat)
    requires
        offenses > 0,
    ensures
        0 <= fixed_penalty(config, offenses) <= config.max_penalty.micros,
{
    lemma_grown_positive(
        config.base_penalty.micros as int,
        config.repeat_offense_multiplier.micros as int,
        (offenses - 1) as nat,
    );
}

/// Further offenses never lower the penalty where the factor is at least one.
pub proof fn law_penalty_grows(
    config: ConfigView,
    fewer: nat,
    more: nat,
    stake: Option<Quantity>,
    severity: Option<OffenseSeverity>,
)
    requires
        config.repeat_offense_multiplier.micros >= 1_000_000,
        fewer <= more,
    ensures
        penalty(config, fewer, stake, severity) <= penalty(config, more, stake, severity),
{
    if more > 0 {
        lemma_fixed_bounds(config, more);
        law_penalty_not_negative(config, more, stake, severity);
    }
    if fewer > 0 {
        let factor = config.repeat_offense_multiplier.micros as int;
        let m = (fewer - 1) as nat;
        let n = (more - 1) as nat;
        let base = config.base_penalty.micros as int;
        lemma_grown_monotone(base, factor, m, n);
        assert(grown(base, factor, m) / (FINE as int) <= grown(base, factor, n) / (FINE as int));
        lemma_grown_monotone(base_ratio(config, severity), factor, m, n);
        if let Some(amount) = stake {
            let held = amount.micros as int;
            let low = slash_ratio(config, fewer, severity);
            let high = slash_ratio(config, more, severity);
            assert(held * low <= held * high) by (nonlinear_arith)
                requires
                    held >= 0,
                    low <= high,
            ;
        }
    }
}

/// A penalty is never negative.
pub proof fn law_penalty_not_negative(
    config: ConfigView,
    offenses: nat,
    stake: Option<Quantity>,
    severity: Option<OffenseSeverity>,
)
    ensures
        penalty(config, offenses, stake, severity) >= 0,
{
    if offenses > 0 {
        lemma_fixed_bounds(config, offenses);
        if let Some(amount) = stake {
            let n = (offenses - 1) as nat;
            lemma_grown_positive(
                base_ratio(config, severity),
                config.repeat_offense_multiplier.micros as int,
                n,
            );
            lemma_share_bounds(amount.micros as int, slash_ratio(config, offenses, severity));
        }
    }
}

/// A penalty on a stake exceeds neither the stake nor the highest amount, and
/// the fixed one does not exceed its own limit.
pub proof fn law_penalty_is_limited(
    config: ConfigView,
    offenses: nat,
    stake: Quantity,
    severity: Option<OffenseSeverity>,
)
    requires
        stake.micros > 0,
    ensures
        config.penalty_mode == PenaltyMode::Proportional ==> penalty(
            config,
            offenses,
            Some(stake),
            severity,
        ) <= stake.micros,
        config.penalty_mode == PenaltyMode::Proportional && config.max_penalty_amount is Some
            ==> penalty(config, offenses, Some(stake), severity)
            <= config.max_penalty_amount.unwrap().micros,
        config.penalty_mode == PenaltyMode::FixedAmount ==> penalty(
            config,
            offenses,
            Some(stake),
            severity,
        ) <= config.max_penalty.micros,
{
    if offenses > 0 {
        lemma_fixed_bounds(config, offenses);
    }
}

/// A provider without an offense pays nothing.
pub proof fn law_no_offense_no_penalty(
    config: ConfigView,
    stake: Option<Quantity>,
    severity: Option<OffenseSeverity>,
)
    ensures
        penalty(config, 0, stake, severity) == 0,
{
}

/// The lesser of `grown` and a limit, both with eighteen digits.
fn grow_limited(base: Quantity, factor: Quantity, n: usize, limit: Quantity) -> (value: u128)
    ensures
        value == least(
            grown(base.micros as int, factor.micros as int, n as nat),
            limit.micros * FINE,
        ),
        value < 0x1000_0000_0000_0000_0000_0000_0000,
{
    let ghost b = base.micros as int;
    let ghost f = factor.micros as int;
    let cap: u128 = limit.micros as u128 * FINE as u128;
    let step: u128 = factor.micros as u128;
    let mut x: u128 = base.micros as u128 * FINE as u128;
    let mut k: usize = 0;
    while k < n
        invariant
            k <= n,
            b == base.micros,
            f == factor.micros == step,
            cap == limit.micros * FINE,
            cap < 0x1000_0000_0000_0000_0000_0000_0000,
            x == grown(b, f, k as nat),
            x < 0x1000_0000_0000_0000_0000_0000_0000,
        decreases n - k,
    {
        if step >= 1_000_000 {
            if x >= cap {
                proof {
                    lemma_grown_monotone(b, f, k as nat, n as nat);
                }
                return cap;
            }
        }
        match x.checked_mul(step) {
            Some(product) => {
                let next: u128 = product / 1_000_000;
                assert(next == grown(b, f, (k + 1) as nat));
                if next == x {
                    proof {
                        lemma_grown_fixed(b, f, k as nat, n as nat);
                    }
                    return if x <= cap {
                        x
                    } else {
                        cap
                    };
                }
                if next >= 0x1000_0000_0000_0000_0000_0000_0000 {
                    proof {
                        lemma_growth_direction(x as int, f, next as int);
                        lemma_grown_monotone(b, f, (k + 1) as nat, n as nat);
                    }
                    return cap;
                }
                x = next;
            },
            None => {
                proof {
                    assert(x * step > u128::MAX);
                    let next = x * step / 1_000_000;
                    assert(next >= 0x1000_0000_0000_0000_0000_0000_0000);
                    lemma_growth_direction(x as int, f, next as int);
                    assert(next == grown(b, f, (k + 1) as nat));
                    lemma_grown_monotone(b, f, (k + 1) as nat, n as nat);
                }
                return cap;
            },
        }
        k += 1;
    }
    if x <= cap {
        x
    } else {
        cap
    }
}

proof fn lemma_growth_direction(x: int, factor: int, next: int)
    requires
        x >= 0,
        factor >= 0,
        next == x * factor / 1_000_000,
        next > x,
    ensures
        factor >= 1_000_000,
{
    if factor < 1_000_000 {
        assert(x * factor / 1_000_000 <= x) by (nonlinear_arith)
            requires
                x >= 0,
                0 <= factor < 1_000_000,
        ;
    }
}

// ---------------------------------------------------------------- tracker

/// Counts the offenses of providers and computes their penalties.
#[derive(Debug, PartialEq, Eq)]
pub struct OffenseTracker {
    /// The number of offenses of each provider.
    offenses: OrderedMap<NodeId, usize>,
    /// When each provider offended last.
    last_offense_time: OrderedMap<NodeId, DateTime>,
    /// The rules for penalties.
    config: SlashingConfig,
}

/// The mathematical value of an [`OffenseTracker`].
pub struct TrackerView {
    pub offenses: Seq<(Seq<u8>, usize)>,
    pub last_times: Seq<(Seq<u8>, DateTime)>,
    pub config: ConfigView,
}

impl View for OffenseTracker {
    type V = TrackerView;

    closed spec fn view(&self) -> TrackerView {
        TrackerView {
            offenses: self.offenses@,
            last_times: self.last_offense_time@,
            config: self.config@,
        }
    }
}

impl Clone for OffenseTracker {
    fn clone(&self) -> (copy: Self)
        ensures
            copy@ == self@,
    {
        OffenseTracker {
            offenses: self.offenses.clone(),
            last_offense_time: self.last_offense_time.clone(),
            config: self.config.clone(),
        }
    }
}

/// Whether no provider is listed twice in a tracker.
pub open spec fn lists_once(tracker: TrackerView) -> bool {
    keys_distinct(tracker.offenses) && keys_distinct(tracker.last_times)
}

/// The number of offenses of a provider.
pub open spec fn offense_count(tracker: TrackerView, provider: Seq<u8>) -> usize {
    match lookup(tracker.offenses, provider) {
        Some(count) => count,
        None => 0,
    }
}

/// The tracker after one more offense of a provider.
pub open spec fn recorded(tracker: TrackerView, provider: Seq<u8>, now: DateTime) -> TrackerView {
    TrackerView {
        offenses: upsert(
            tracker.offenses,
            provider,
            (offense_count(tracker, provider) + 1) as usize,
        ),
        last_times: upsert(tracker.last_times, provider, now),
        config: tracker.config,
    }
}

/// Whether one more offense of a provider can be counted.
pub open spec fn has_place(tracker: TrackerView, provider: Seq<u8>) -> bool {
    offense_count(tracker, provider) < usize::MAX
}

/// Whether `n` more offenses of any provider can be counted.
pub open spec fn has_room(tracker: TrackerView, n: int) -> bool {
    n <= usize::MAX && forall|i: int|
        0 <= i < tracker.offenses.len() ==> (#[trigger] tracker.offenses[i]).1 + n <= usize::MAX
}

/// Counting an offense leaves room for one less.
pub proof fn lemma_room(tracker: TrackerView, provider: Seq<u8>, now: DateTime, n: int)
    requires
        has_room(tracker, n),
        n > 0,
    ensures
        has_place(tracker, provider),
        has_room(recorded(tracker, provider, now), n - 1),
{
    let after = recorded(tracker, provider, now).offenses;
    assert forall|i: int| 0 <= i < after.len() implies (#[trigger] after[i]).1 + (n - 1)
        <= usize::MAX by {
        if i < tracker.offenses.len() {
            assert(tracker.offenses[i].1 + n <= usize::MAX);
        }
    }
}

/// Recording an offense counts it for its provider and for nobody else.
pub proof fn law_offenses_are_counted(
    tracker: TrackerView,
    provider: Seq<u8>,
    now: DateTime,
    other: Seq<u8>,
)
    requires
        lists_once(tracker),
        has_place(tracker, provider),
    ensures
        offense_count(recorded(tracker, provider, now), provider) == offense_count(
            tracker,
            provider,
        ) + 1,
        lookup(recorded(tracker, provider, now).last_times, provider) == Some(now),
        other != provider ==> offense_count(recorded(tracker, provider, now), other)
            == offense_count(tracker, other),
{
    let count: usize = (offense_count(tracker, provider) + 1) as usize;
    lemma_upsert_lookup(tracker.offenses, provider, count, other);
    lemma_upsert_lookup(tracker.last_times, provider, now, other);
}

impl OffenseTracker {
    /// A tracker that knows of no offense.
    pub fn new(config: SlashingConfig) -> (tracker: Self)
        ensures
            tracker@ == (TrackerView {
                offenses: Seq::empty(),
                last_times: Seq::empty(),
                config: config@,
            }),
            lists_once(tracker@),
    {
        OffenseTracker { offenses: OrderedMap::new(), last_offense_time: OrderedMap::new(), config }
    }

    /// Counts an offense of a provider at the current time.
    pub fn record_offense(&mut self, provider_id: NodeId)
        requires
            has_place(old(self)@, provider_id@),
        ensures
            exists|now: DateTime|
                final(self)@ == #[trigger] recorded(old(self)@, provider_id@, now),
            lists_once(final(self)@),
    {
        let now = utc_now();
        self.record_offense_at(provider_id, now);
    }

    /// Counts an offense of a provider at the time `now`.
    pub fn record_offense_at(&mut self, provider_id: NodeId, now: DateTime)
        requires
            has_place(old(self)@, provider_id@),
        ensures
            final(self)@ == recorded(old(self)@, provider_id@, now),
            lists_once(final(self)@),
    {
        let count: usize = self.get_offense_count(&provider_id) + 1;
        self.offenses.insert(provider_id, count);
        self.last_offense_time.insert(provider_id, now);
        proof {
            use_type_invariant(&self.offenses);
            use_type_invariant(&self.last_offense_time);
        }
    }

    /// The penalty for a provider whose stake and severity are not known.
    pub fn calculate_penalty(&self, provider_id: &NodeId) -> (amount: Quantity)
        ensures
            amount.micros == penalty(
                self@.config,
                offense_count(self@, provider_id@) as nat,
                None,
                None,
            ),
    {
        self.calculate_penalty_advanced(provider_id, None, None)
    }

    /// The penalty for a provider.
    pub fn calculate_penalty_advanced(
        &self,
        provider_id: &NodeId,
        stake_amount: Option<Quantity>,
        severity: Option<OffenseSeverity>,
    ) -> (amount: Quantity)
        ensures
            amount.micros == penalty(
                self@.config,
                offense_count(self@, provider_id@) as nat,
                stake_amount,
                severity,
            ),
    {
        let count: usize = self.get_offense_count(provider_id);
        if count == 0 {
            return Quantity { micros: 0 };
        }
        let stake = match stake_amount {
            Some(amount) => amount,
            None => Quantity { micros: 0 },
        };
        match self.config.penalty_mode {
            PenaltyMode::FixedAmount => self.calculate_penalty_fixed(count),
            PenaltyMode::Proportional => self.calculate_penalty_proportional(
                count,
                stake,
                severity,
            ),
            PenaltyMode::Hybrid => {
                let fixed = self.calculate_penalty_fixed(count);
                let proportional = self.calculate_penalty_proportional(count, stake, severity);
                if fixed.micros >= proportional.micros {
                    fixed
                } else {
                    proportional
                }
            },
        }
    }

    /// The penalty that does not depend on the stake.
    fn calculate_penalty_fixed(&self, count: usize) -> (amount: Quantity)
        requires
            count > 0,
        ensures
            amount.micros == fixed_penalty(self@.config, count as nat),
    {
        let value: u128 = grow_limited(
            self.config.base_penalty,
            self.config.repeat_offense_multiplier,
            count - 1,
            self.config.max_penalty,
        );
        proof {
            lemma_limit_in_millionths(
                grown(
                    self.config.base_penalty.micros as int,
                    self.config.repeat_offense_multiplier.micros as int,
                    (count - 1) as nat,
                ),
                self.config.max_penalty.micros as int,
            );
        }
        Quantity { micros: (value / 1_000_000_000_000) as u64 }
    }

    /// The penalty on a stake.
    fn calculate_penalty_proportional(
        &self,
        count: usize,
        stake: Quantity,
        severity: Option<OffenseSeverity>,
    ) -> (amount: Quantity)
        requires
            count > 0,
        ensures
            amount.micros == proportional_penalty(
                self@.config,
                count as nat,
                stake.micros as int,
                severity,
            ),
    {
        if stake.micros == 0 {
            return self.calculate_penalty_fixed(count);
        }
        let base = match severity {
            Some(level) => match self.config.severity_ratios.get(&level) {
                Some(ratio) => *ratio,
                None => self.config.base_slash_ratio,
            },
            None => self.config.base_slash_ratio,
        };
        let ratio: u128 = grow_limited(
            base,
            self.config.repeat_offense_multiplier,
            count - 1,
            self.config.max_slash_ratio,
        );
        assert(ratio == slash_ratio(self@.config, count as nat, severity));
        // A share of more than the whole is cut to the stake in the end.
        let part: u64 = if ratio >= 1_000_000_000_000_000_000 {
            stake.micros
        } else {
            assert(stake.micros * ratio <= 0xffff_ffff_ffff_ffff * 1_000_000_000_000_000_000)
                by (nonlinear_arith)
                requires
                    0 <= stake.micros <= 0xffff_ffff_ffff_ffff,
                    0 <= ratio < 1_000_000_000_000_000_000,
            ;
            proof {
                lemma_share_bounds(stake.micros as int, ratio as int);
            }
            (stake.micros as u128 * ratio / 1_000_000_000_000_000_000) as u64
        };
        proof {
            lemma_share_bounds(stake.micros as int, ratio as int);
        }
        let min: u64 = self.config.min_penalty_amount.micros;
        let raised: u64 = if part >= min {
            part
        } else {
            min
        };
        let capped: u64 = match self.config.max_penalty_amount {
            Some(max) => if raised <= max.micros {
                raised
            } else {
                max.micros
            },
            None => raised,
        };
        if capped <= stake.micros {
            Quantity { micros: capped }
        } else {
            stake
        }
    }

    /// The number of offenses of a provider.
    pub fn get_offense_count(&self, provider_id: &NodeId) -> (count: usize)
        ensures
            count == offense_count(self@, provider_id@),
            lists_once(self@),
    {
        proof {
            use_type_invariant(&self.offenses);
            use_type_invariant(&self.last_offense_time);
        }
        match self.offenses.get(provider_id) {
            Some(count) => *count,
            None => 0,
        }
    }

    /// When a provider offended last.
    pub fn get_last_offense_time(&self, provider_id: &NodeId) -> (time: Option<DateTime>)
        ensures
            time == lookup(self@.last_times, provider_id@),
            lists_once(self@),
    {
        proof {
            use_type_invariant(&self.offenses);
            use_type_invariant(&self.last_offense_time);
        }
        match self.last_offense_time.get(provider_id) {
            Some(time) => Some(*time),
            None => None,
        }
    }

    /// The providers with offenses.
    pub fn get_offending_providers(&self) -> (providers: Vec<NodeId>)
        ensures
            views(providers@) == keys_of(self@.offenses),
            lists_once(self@),
    {
        proof {
            use_type_invariant(&self.offenses);
            use_type_invariant(&self.last_offense_time);
        }
        let mut providers: Vec<NodeId> = Vec::new();
        let ghost keys = keys_of(self@.offenses);
        let mut i: usize = 0;
        while i < self.offenses.len()
            invariant
                i <= self.offenses@.len(),
                keys == keys_of(self.offenses@),
                views(providers@) =~= keys.take(i as int),
            decreases self.offenses@.len() - i,
        {
            let id = *self.offenses.key_at(i);
            let ghost before = views(providers@);
            providers.push(id);
            assert(views(providers@) =~= before.push(id@));
            i += 1;
        }
        assert(keys.take(i as int) =~= keys);
        providers
    }

    /// Whether `n` more offenses of any provider can be counted.
    pub fn can_count(&self, n: usize) -> (can: bool)
        ensures
            can == has_room(self@, n as int),
            lists_once(self@),
    {
        proof {
            use_type_invariant(&self.offenses);
            use_type_invariant(&self.last_offense_time);
        }
        let mut i: usize = 0;
        while i < self.offenses.len()
            invariant
                i <= self.offenses@.len(),
                lists_once(self@),
                forall|k: int| 0 <= k < i ==> (#[trigger] self.offenses@[k]).1 + n <= usize::MAX,
            decreases self.offenses@.len() - i,
        {
            let count: usize = *self.offenses.value_at(i);
            assert(count == self.offenses@[i as int].1);
            if count > usize::MAX - n {
                assert(self@.offenses[i as int].1 + n > usize::MAX);
                return false;
            }
            i += 1;
        }
        true
    }
}

// ---------------------------------------------------------------- actions

/// A penalty to be imposed.
#[derive(Debug, PartialEq, Eq)]
pub struct SlashingAction {
    /// The provider.
    pub provider_id: NodeId,
    /// The amount.
    pub penalty_amount: Quantity,
    /// Why it is imposed.
    pub reason: String,
    /// The number of offenses, this one included.
    pub offense_count: usize,
    /// How severe the offense is.
    pub severity: OffenseSeverity,
}

/// The mathematical value of a [`SlashingAction`].
pub struct ActionView {
    pub provider_id: Seq<u8>,
    pub penalty_amount: Quantity,
    pub reason: Seq<char>,
    pub offense_count: usize,
    pub severity: OffenseSeverity,
}

impl View for SlashingAction {
    type V = ActionView;

    open spec fn view(&self) -> ActionView {
        ActionView {
            provider_id: self.provider_id@,
            penalty_amount: self.penalty_amount,
            reason: self.reason@,
            offense_count: self.offense_count,
            severity: self.severity,
        }
    }
}

impl Clone for SlashingAction {
    fn clone(&self) -> (copy: Self)
        ensures
            copy@ == self@,
    {
        SlashingAction {
            provider_id: self.provider_id,
            penalty_amount: self.penalty_amount,
            reason: self.reason.clone(),
            offense_count: self.offense_count,
            severity: self.severity,
        }
    }
}

/// Why a penalty is imposed.
pub open spec fn reason_text(severity: OffenseSeverity, offenses: usize) -> Seq<char> {
    "违规严重程度: "@ + severity_text(severity) + ", 违规次数: "@ + decimal(offenses as nat)
}

/// Why a penalty on a stake is imposed.
pub open spec fn stake_reason_text(
    severity: OffenseSeverity,
    offenses: usize,
    stake: Option<Quantity>,
) -> Seq<char> {
    let held: int = match stake {
        Some(amount) => amount.micros as int,
        None => 0,
    };
    reason_text(severity, offenses) + ", 质押金额: "@ + rounded_text(held, 1_000_000, 2)
}

/// What a round of slashing leaves behind.
pub struct SlashingState {
    pub tracker: TrackerView,
    pub evaluator: EvaluatorView,
    pub actions: Seq<ActionView>,
}

/// The context of an offense of which nothing is known.
pub open spec fn bare_context(provider: Seq<u8>, total: nat, now: DateTime) -> ContextView {
    ContextView {
        provider_id: provider,
        offense_time: now,
        wrong_result_hash: Seq::empty(),
        correct_result_hash: Seq::empty(),
        offense_type: OffenseView::WrongResult,
        colluding_providers: Seq::empty(),
        total_providers: total as usize,
        malicious_count: total as usize,
        resource_usage: None,
        cost_info: None,
    }
}

/// One provider is slashed. Where the circumstances are not known they are
/// made up from what is.
pub open spec fn slashed_once(
    state: SlashingState,
    provider: Seq<u8>,
    context: Option<ContextView>,
    total: nat,
    now: DateTime,
) -> SlashingState {
    let circumstances = match context {
        Some(c) => c,
        None => bare_context(provider, total, now),
    };
    let level = severity(state.evaluator.history, state.evaluator.repeat_window, circumstances);
    let tracker = recorded(state.tracker, provider, now);
    let offenses = offense_count(tracker, provider);
    SlashingState {
        tracker,
        evaluator: EvaluatorView {
            history: updated(state.evaluator.history, circumstances),
            ..state.evaluator
        },
        actions: state.actions.push(
            ActionView {
                provider_id: provider,
                penalty_amount: Quantity {
                    micros: penalty(tracker.config, offenses as nat, None, None) as u64,
                },
                reason: reason_text(level, offenses),
                offense_count: offenses,
                severity: level,
            },
        ),
    }
}

/// The first `n` providers are slashed. The contexts go with the providers in
/// order, as far as there are any.
pub open spec fn slashed(
    start: SlashingState,
    providers: Seq<Seq<u8>>,
    contexts: Seq<ContextView>,
    now: DateTime,
    n: nat,
) -> SlashingState
    decreases n,
{
    if n == 0 {
        start
    } else {
        let i = n - 1;
        slashed_once(
            slashed(start, providers, contexts, now, i as nat),
            providers[i],
            if i < contexts.len() {
                Some(contexts[i])
            } else {
                None
            },
            providers.len(),
            now,
        )
    }
}

/// All providers are slashed.
pub open spec fn slashed_all(
    tracker: TrackerView,
    evaluator: EvaluatorView,
    providers: Seq<Seq<u8>>,
    contexts: Seq<ContextView>,
    now: DateTime,
) -> SlashingState {
    slashed(
        SlashingState { tracker, evaluator, actions: Seq::empty() },
        providers,
        contexts,
        now,
        providers.len(),
    )
}

/// One provider is slashed in relation to its stake. Without circumstances the
/// offense counts as moderate.
pub open spec fn stake_slashed_once(
    state: SlashingState,
    provider: Seq<u8>,
    context: Option<ContextView>,
    stake: Option<Quantity>,
    now: DateTime,
) -> SlashingState {
    let level = match context {
        Some(c) => severity(state.evaluator.history, state.evaluator.repeat_window, c),
        None => OffenseSeverity::Moderate,
    };
    let tracker = recorded(state.tracker, provider, now);
    let offenses = offense_count(tracker, provider);
    SlashingState {
        tracker,
        evaluator: match context {
            Some(c) => EvaluatorView {
                history: updated(state.evaluator.history, c),
                ..state.evaluator
            },
            None => state.evaluator,
        },
        actions: state.actions.push(
            ActionView {
                provider_id: provider,
                penalty_amount: Quantity {
                    micros: penalty(tracker.config, offenses as nat, stake, Some(level)) as u64,
                },
                reason: stake_reason_text(level, offenses, stake),
                offense_count: offenses,
                severity: level,
            },
        ),
    }
}

/// The first `n` providers are slashed in relation to their stakes.
pub open spec fn stake_slashed(
    start: SlashingState,
    providers: Seq<Seq<u8>>,
    contexts: Seq<ContextView>,
    stakes: Seq<(Seq<u8>, Quantity)>,
    now: DateTime,
    n: nat,
) -> SlashingState
    decreases n,
{
    if n == 0 {
        start
    } else {
        let i = n - 1;
        stake_slashed_once(
            stake_slashed(start, providers, contexts, stakes, now, i as nat),
            providers[i],
            if i < contexts.len() {
                Some(contexts[i])
            } else {
                None
            },
            lookup(stakes, providers[i]),
            now,
        )
    }
}

/// All providers are slashed in relation to their stakes.
pub open spec fn stake_slashed_all(
    tracker: TrackerView,
    evaluator: EvaluatorView,
    providers: Seq<Seq<u8>>,
    contexts: Seq<ContextView>,
    stakes: Seq<(Seq<u8>, Quantity)>,
    now: DateTime,
) -> SlashingState {
    stake_slashed(
        SlashingState { tracker, evaluator, actions: Seq::empty() },
        providers,
        contexts,
        stakes,
        now,
        providers.len(),
    )
}

/// Whether a round of slashing ended in this state.
pub open spec fn is_slashed(
    state: SlashingState,
    tracker: TrackerView,
    evaluator: EvaluatorView,
    actions: Seq<ActionView>,
) -> bool {
    &&& tracker == state.tracker
    &&& evaluator == state.evaluator
    &&& actions == state.actions
}

/// What a new evaluator knows.
pub open spec fn new_evaluator() -> EvaluatorView {
    EvaluatorView { history: Seq::empty(), collusion_window: 60, repeat_window: 3600 }
}

/// Every malicious provider gets exactly one action, in order.
pub proof fn law_one_action_per_provider(
    start: SlashingState,
    providers: Seq<Seq<u8>>,
    contexts: Seq<ContextView>,
    stakes: Seq<(Seq<u8>, Quantity)>,
    now: DateTime,
    n: nat,
)
    requires
        start.actions.len() == 0,
        n <= providers.len(),
    ensures
        slashed(start, providers, contexts, now, n).actions.map_values(
            |a: ActionView| a.provider_id,
        ) == providers.take(n as int),
        stake_slashed(start, providers, contexts, stakes, now, n).actions.map_values(
            |a: ActionView| a.provider_id,
        ) == providers.take(n as int),
    decreases n,
{
    let ids = |a: ActionView| a.provider_id;
    if n == 0 {
        assert(start.actions.map_values(ids) =~= providers.take(0));
    } else {
        let m = (n - 1) as nat;
        law_one_action_per_provider(start, providers, contexts, stakes, now, m);
        let before = slashed(start, providers, contexts, now, m).actions;
        let after = slashed(start, providers, contexts, now, n).actions;
        assert(before.map_values(ids).len() == m);
        assert(after.map_values(ids) =~= before.map_values(ids).push(providers[m as int]));
        let before = stake_slashed(start, providers, contexts, stakes, now, m).actions;
        let after = stake_slashed(start, providers, contexts, stakes, now, n).actions;
        assert(before.map_values(ids).len() == m);
        assert(after.map_values(ids) =~= before.map_values(ids).push(providers[m as int]));
        assert(providers.take(m as int).push(providers[m as int]) =~= providers.take(n as int));
    }
}

/// A round of slashing uses up no more room than it has providers.
pub proof fn lemma_slashed_room(
    start: SlashingState,
    providers: Seq<Seq<u8>>,
    contexts: Seq<ContextView>,
    now: DateTime,
    n: nat,
    room: int,
)
    requires
        has_room(start.tracker, room),
        countable(start.evaluator.history, room),
        n <= room,
        n <= providers.len(),
    ensures
        has_room(slashed(start, providers, contexts, now, n).tracker, room - n),
        countable(slashed(start, providers, contexts, now, n).evaluator.history, room - n),
    decreases n,
{
    if n > 0 {
        let m = (n - 1) as nat;
        lemma_slashed_room(start, providers, contexts, now, m, room);
        let before = slashed(start, providers, contexts, now, m);
        let context = if m < contexts.len() {
            contexts[m as int]
        } else {
            bare_context(providers[m as int], providers.len(), now)
        };
        lemma_room(before.tracker, providers[m as int], now, room - m);
        lemma_countable(before.evaluator.history, context, room - m);
    }
}

fn reason_of(severity: OffenseSeverity, offenses: usize) -> (text: String)
    ensures
        text@ == reason_text(severity, offenses),
{
    let mut text = "违规严重程度: ".to_string();
    let name = severity.to_text();
    text.append(name.as_str());
    text.append(", 违规次数: ");
    push_decimal(&mut text, offenses as u128);
    text
}

/// Penalties for malicious providers of which nothing else is known, at the
/// current time.
pub fn generate_slashing_actions(
    malicious_providers: &[NodeId],
    tracker: &mut OffenseTracker,
) -> (actions: Vec<SlashingAction>)
    requires
        has_room(old(tracker)@, malicious_providers@.len() as int),
    ensures
        exists|now: DateTime|
            final(tracker)@ == (#[trigger] slashed_all(
                old(tracker)@,
                new_evaluator(),
                views(malicious_providers@),
                Seq::empty(),
                now,
            )).tracker && views(actions@) == slashed_all(
                old(tracker)@,
                new_evaluator(),
                views(malicious_providers@),
                Seq::empty(),
                now,
            ).actions,
{
    let mut evaluator = SeverityEvaluator::new();
    let contexts: Vec<OffenseContext> = Vec::new();
    assert(views(contexts@) =~= Seq::<ContextView>::empty());
    let now = utc_now();
    let ghost after = slashed_all(
        tracker@,
        new_evaluator(),
        views(malicious_providers@),
        Seq::empty(),
        now,
    );
    let actions = generate_slashing_actions_with_severity_at(
        malicious_providers,
        tracker,
        &mut evaluator,
        contexts.as_slice(),
        now,
    );
    assert(tracker@ == after.tracker && views(actions@) == after.actions);
    actions
}

/// Penalties for malicious providers, with their severity, at the current
/// time.
pub fn generate_slashing_actions_with_severity(
    malicious_providers: &[NodeId],
    tracker: &mut OffenseTracker,
    evaluator: &mut SeverityEvaluator,
    offense_contexts: &[OffenseContext],
) -> (actions: Vec<SlashingAction>)
    requires
        has_room(old(tracker)@, malicious_providers@.len() as int),
        countable(old(evaluator)@.history, malicious_providers@.len() as int),
    ensures
        exists|now: DateTime|
            is_slashed(
                #[trigger] slashed_all(
                    old(tracker)@,
                    old(evaluator)@,
                    views(malicious_providers@),
                    views(offense_contexts@),
                    now,
                ),
                final(tracker)@,
                final(evaluator)@,
                views(actions@),
            ),
{
    let now = utc_now();
    generate_slashing_actions_with_severity_at(
        malicious_providers,
        tracker,
        evaluator,
        offense_contexts,
        now,
    )
}

/// Penalties for malicious providers, with their severity, at the time `now`.
pub fn generate_slashing_actions_with_severity_at(
    malicious_providers: &[NodeId],
    tracker: &mut OffenseTracker,
    evaluator: &mut SeverityEvaluator,
    offense_contexts: &[OffenseContext],
    now: DateTime,
) -> (actions: Vec<SlashingAction>)
    requires
        has_room(old(tracker)@, malicious_providers@.len() as int),
        countable(old(evaluator)@.history, malicious_providers@.len() as int),
    ensures
        is_slashed(
            slashed_all(
                old(tracker)@,
                old(evaluator)@,
                views(malicious_providers@),
                views(offense_contexts@),
                now,
            ),
            final(tracker)@,
            final(evaluator)@,
            views(actions@),
        ),
{
    let ghost start = SlashingState {
        tracker: tracker@,
        evaluator: evaluator@,
        actions: Seq::empty(),
    };
    let ghost ids = views(malicious_providers@);
    let ghost contexts = views(offense_contexts@);
    let total: usize = malicious_providers.len();
    let mut actions: Vec<SlashingAction> = Vec::new();
    assert(views(actions@) =~= Seq::<ActionView>::empty());
    let mut i: usize = 0;
    while i < malicious_providers.len()
        invariant
            i <= malicious_providers.len() == total,
            ids == views(malicious_providers@),
            contexts == views(offense_contexts@),
            has_room(tracker@, total - i),
            countable(evaluator@.history, total - i),
            tracker@ == slashed(start, ids, contexts, now, i as nat).tracker,
            evaluator@ == slashed(start, ids, contexts, now, i as nat).evaluator,
            views(actions@) == slashed(start, ids, contexts, now, i as nat).actions,
        decreases malicious_providers.len() - i,
    {
        let provider_id = malicious_providers[i];
        let ghost context = if i < contexts.len() {
            contexts[i as int]
        } else {
            bare_context(provider_id@, total as nat, now)
        };
        proof {
            lemma_countable(evaluator@.history, context, total - i);
            lemma_room(tracker@, provider_id@, now, total - i);
        }
        let severity = if i < offense_contexts.len() {
            evaluator.evaluate_severity(&offense_contexts[i])
        } else {
            let fallback_context = OffenseContext {
                provider_id,
                offense_time: now,
                wrong_result_hash: String::new(),
                correct_result_hash: String::new(),
                offense_type: OffenseType::WrongResult,
                colluding_providers: Vec::new(),
                total_providers: total,
                malicious_count: total,
                resource_usage: None,
                cost_info: None,
            };
            proof {
                assert(fallback_context@.wrong_result_hash =~= Seq::empty());
                assert(fallback_context@.correct_result_hash =~= Seq::empty());
                assert(fallback_context@.colluding_providers =~= Seq::empty());
            }
            evaluator.evaluate_severity(&fallback_context)
        };
        tracker.record_offense_at(provider_id, now);
        let penalty_amount = tracker.calculate_penalty(&provider_id);
        let offense_count: usize = tracker.get_offense_count(&provider_id);
        let action = SlashingAction {
            provider_id,
            penalty_amount,
            reason: reason_of(severity, offense_count),
            offense_count,
            severity,
        };
        let ghost before = views(actions@);
        let ghost added = action@;
        actions.push(action);
        assert(views(actions@) =~= before.push(added));
        i += 1;
    }
    actions
}

/// Penalties for malicious providers, with their severity and in relation to
/// their stakes, at the current time.
pub fn generate_slashing_actions_advanced(
    malicious_providers: &[NodeId],
    tracker: &mut OffenseTracker,
    evaluator: &mut SeverityEvaluator,
    offense_contexts: &[OffenseContext],
    stake_amounts: &OrderedMap<NodeId, Quantity>,
) -> (actions: Vec<SlashingAction>)
    requires
        has_room(old(tracker)@, malicious_providers@.len() as int),
        countable(old(evaluator)@.history, malicious_providers@.len() as int),
    ensures
        exists|now: DateTime|
            is_slashed(
                #[trigger] stake_slashed_all(
                    old(tracker)@,
                    old(evaluator)@,
                    views(malicious_providers@),
                    views(offense_contexts@),
                    stake_amounts@,
                    now,
                ),
                final(tracker)@,
                final(evaluator)@,
                views(actions@),
            ),
{
    let now = utc_now();
    generate_slashing_actions_advanced_at(
        malicious_providers,
        tracker,
        evaluator,
        offense_contexts,
        stake_amounts,
        now,
    )
}

/// Penalties for malicious providers, with their severity and in relation to
/// their stakes, at the time `now`.
pub fn generate_slashing_actions_advanced_at(
    malicious_providers: &[NodeId],
    tracker: &mut OffenseTracker,
    evaluator: &mut SeverityEvaluator,
    offense_contexts: &[OffenseContext],
    stake_amounts: &OrderedMap<NodeId, Quantity>,
    now: DateTime,
) -> (actions: Vec<SlashingAction>)
    requires
        has_room(old(tracker)@, malicious_providers@.len() as int),
        countable(old(evaluator)@.history, malicious_providers@.len() as int),
    ensures
        is_slashed(
            stake_slashed_all(
                old(tracker)@,
                old(evaluator)@,
                views(malicious_providers@),
                views(offense_contexts@),
                stake_amounts@,
                now,
            ),
            final(tracker)@,
            final(evaluator)@,
            views(actions@),
        ),
{
    let ghost start = SlashingState {
        tracker: tracker@,
        evaluator: evaluator@,
        actions: Seq::empty(),
    };
    let ghost ids = views(malicious_providers@);
    let ghost contexts = views(offense_contexts@);
    let total: usize = malicious_providers.len();
    let mut actions: Vec<SlashingAction> = Vec::new();
    assert(views(actions@) =~= Seq::<ActionView>::empty());
    let mut i: usize = 0;
    while i < malicious_providers.len()
        invariant
            i <= malicious_providers.len() == total,
            ids == views(malicious_providers@),
            contexts == views(offense_contexts@),
            has_room(tracker@, total - i),
            countable(evaluator@.history, total - i),
            tracker@ == stake_slashed(
                start,
                ids,
                contexts,
                stake_amounts@,
                now,
                i as nat,
            ).tracker,
            evaluator@ == stake_slashed(
                start,
                ids,
                contexts,
                stake_amounts@,
                now,
                i as nat,
            ).evaluator,
            views(actions@) == stake_slashed(
                start,
                ids,
                contexts,
                stake_amounts@,
                now,
                i as nat,
            ).actions,
        decreases malicious_providers.len() - i,
    {
        let provider_id = malicious_providers[i];
        proof {
            if i < contexts.len() {
                lemma_countable(evaluator@.history, contexts[i as int], total - i);
            }
            lemma_room(tracker@, provider_id@, now, total - i);
        }
        let severity = if i < offense_contexts.len() {
            evaluator.evaluate_severity(&offense_contexts[i])
        } else {
            OffenseSeverity::Moderate
        };
        tracker.record_offense_at(provider_id, now);
        let stake_amount = match stake_amounts.get(&provider_id) {
            Some(amount) => Some(*amount),
            None => None,
        };
        let penalty_amount = tracker.calculate_penalty_advanced(
            &provider_id,
            stake_amount,
            Some(severity),
        );
        let offense_count: usize = tracker.get_offense_count(&provider_id);
        let mut reason = reason_of(severity, offense_count);
        reason.append(", 质押金额: ");
        let held: u64 = match stake_amount {
            Some(amount) => amount.micros,
            None => 0,
        };
        push_rounded(&mut reason, held as i128, 1_000_000, 2);
        let action = SlashingAction {
            provider_id,
            penalty_amount,
            reason,
            offense_count,
            severity,
        };
        let ghost before = views(actions@);
        let ghost added = action@;
        actions.push(action);
        assert(views(actions@) =~= before.push(added));
        i += 1;
    }
    actions
}

// ---------------------------------------------------------------- laws

/// Multiplying a share and then rounding it down differs from multiplying what
/// was rounded down by no more than the rounding.
proof fn lemma_next_share(stake: int, ratio: int, factor: int)
    requires
        0 <= stake <= u64::MAX,
        ratio >= 0,
        factor >= 0,
    ensures
        ({
            let now = stake * ratio / 1_000_000_000_000_000_000;
            let next = stake * (ratio * factor / 1_000_000) / 1_000_000_000_000_000_000;
            &&& next * 1_000_000 <= (now + 1) * factor
            &&& (next + 20) * 1_000_000 > now * factor
        }),
{
    let e: int = 1_000_000_000_000_000_000;
    let grow = ratio * factor / 1_000_000;
    let now = stake * ratio / e;
    let next = stake * grow / e;
    let a = stake * ratio;
    let b = stake * grow;
    let c = ratio * factor;
    assert(now * e <= a < (now + 1) * e);
    assert(next * e <= b < (next + 1) * e);
    assert(grow * 1_000_000 <= c < (grow + 1) * 1_000_000);
    assert(b * 1_000_000 <= a * factor) by (nonlinear_arith)
        requires
            a == stake * ratio,
            b == stake * grow,
            c == ratio * factor,
            grow * 1_000_000 <= c,
            stake >= 0,
    ;
    assert(b * 1_000_000 + stake * 1_000_000 >= a * factor) by (nonlinear_arith)
        requires
            a == stake * ratio,
            b == stake * grow,
            c == ratio * factor,
            c < (grow + 1) * 1_000_000,
            stake >= 0,
    ;
    assert(a * factor <= ((now + 1) * factor) * e) by (nonlinear_arith)
        requires
            a < (now + 1) * e,
            factor >= 0,
    ;
    assert(a * factor >= (now * factor) * e) by (nonlinear_arith)
        requires
            now * e <= a,
            factor >= 0,
    ;
    let up = (now + 1) * factor;
    let down = now * factor;
    assert(next * 1_000_000 * e <= up * e);
    assert((next + 1) * 1_000_000 * e + stake * 1_000_000 > down * e);
    assert(stake * 1_000_000 <= 19 * 1_000_000 * e);
}

proof fn lemma_next_amount(amount: int, factor: int)
    requires
        amount >= 0,
        factor >= 0,
    ensures
        ({
            let now = amount / (FINE as int);
            let next = (amount * factor / 1_000_000) / (FINE as int);
            &&& next * 1_000_000 <= (now + 1) * factor
            &&& (next + 2) * 1_000_000 > now * factor
        }),
{
    let e = FINE as int;
    let grow = amount * factor / 1_000_000;
    let now = amount / e;
    let next = grow / e;
    let c = amount * factor;
    assert(now * e <= amount < (now + 1) * e);
    assert(next * e <= grow < (next + 1) * e);
    assert(grow * 1_000_000 <= c < (grow + 1) * 1_000_000);
    assert(c <= ((now + 1) * factor) * e) by (nonlinear_arith)
        requires
            c == amount * factor,
            amount < (now + 1) * e,
            factor >= 0,
    ;
    assert(c >= (now * factor) * e) by (nonlinear_arith)
        requires
            c == amount * factor,
            now * e <= amount,
            factor >= 0,
    ;
    let up = (now + 1) * factor;
    let down = now * factor;
    assert(next * 1_000_000 * e <= up * e);
    assert((next + 1) * e * 1_000_000 + 1_000_000 > down * e);
}

/// In the fixed mode neither stake nor severity matters, and without a stake the
/// proportional mode charges what the fixed one does. The mixed mode charges the
/// larger of the two.
pub proof fn law_modes_compare(
    config: ConfigView,
    offenses: nat,
    stake: Option<Quantity>,
    other: Option<Quantity>,
    severity: Option<OffenseSeverity>,
)
    ensures
        ({
            let fixed = ConfigView { penalty_mode: PenaltyMode::FixedAmount, ..config };
            let share = ConfigView { penalty_mode: PenaltyMode::Proportional, ..config };
            let mixed = ConfigView { penalty_mode: PenaltyMode::Hybrid, ..config };
            let a = penalty(fixed, offenses, stake, severity);
            let b = penalty(share, offenses, stake, severity);
            let both = penalty(mixed, offenses, stake, severity);
            &&& a == penalty(fixed, offenses, other, None)
            &&& stake is None || stake.unwrap().micros == 0 ==> b == a
            &&& both >= a && both >= b && (both == a || both == b)
        }),
{
}

/// A first offense costs the fixed amount, as far as its limit allows.
pub proof fn law_first_fixed_penalty(
    config: ConfigView,
    stake: Option<Quantity>,
    severity: Option<OffenseSeverity>,
)
    requires
        config.penalty_mode == PenaltyMode::FixedAmount,
    ensures
        config.base_penalty.micros <= config.max_penalty.micros ==> penalty(
            config,
            1,
            stake,
            severity,
        ) == config.base_penalty.micros,
        config.base_penalty.micros > config.max_penalty.micros ==> penalty(
            config,
            1,
            stake,
            severity,
        ) == config.max_penalty.micros,
{
    let base = config.base_penalty.micros as int;
    assert(base * FINE / (FINE as int) == base);
}

/// Each further offense multiplies the fixed amount by the factor, but for the
/// rounding, until the limit is reached. The limit cuts the amount off and does
/// nothing else.
pub proof fn law_fixed_penalty_multiplies(
    config: ConfigView,
    offenses: nat,
    stake: Option<Quantity>,
    severity: Option<OffenseSeverity>,
    lower: Quantity,
)
    requires
        config.penalty_mode == PenaltyMode::FixedAmount,
        offenses > 0,
        lower.micros <= config.max_penalty.micros,
    ensures
        ({
            let now = penalty(config, offenses, stake, severity);
            let next = penalty(config, offenses + 1, stake, severity);
            let factor = config.repeat_offense_multiplier.micros;
            let cut = penalty(
                ConfigView { max_penalty: lower, ..config },
                offenses,
                stake,
                severity,
            );
            &&& now < config.max_penalty.micros && next < config.max_penalty.micros ==> {
                &&& next * 1_000_000 <= (now + 1) * factor
                &&& (next + 2) * 1_000_000 > now * factor
            }
            &&& cut <= now && cut <= lower.micros && (cut == now || cut == lower.micros)
        }),
{
    let factor = config.repeat_offense_multiplier.micros as int;
    let base = config.base_penalty.micros as int;
    let n = (offenses - 1) as nat;
    lemma_grown_positive(base, factor, n);
    lemma_next_amount(grown(base, factor, n), factor);
    assert(grown(base, factor, n + 1) == grown(base, factor, n) * factor / 1_000_000);
    assert((offenses + 1 - 1) as nat == n + 1);
}

/// Whether no limit bears on a penalty for a share of the stake: it lies above the
/// least amount and below the highest, the highest share and the stake.
pub open spec fn is_free(config: ConfigView, stake: Quantity, amount: int) -> bool {
    &&& config.min_penalty_amount.micros < amount < stake.micros
    &&& config.max_penalty_amount matches Some(max) ==> amount < max.micros
    &&& amount < stake.micros * config.max_slash_ratio.micros / 1_000_000
}

proof fn lemma_ratio_limit(stake: int, ratio: int, limit: int)
    requires
        stake >= 0,
        ratio >= 0,
        limit >= 0,
    ensures
        stake * (limit * FINE) / 1_000_000_000_000_000_000 == stake * limit / 1_000_000,
        stake * least(ratio, limit * FINE) / 1_000_000_000_000_000_000 == least(
            stake * ratio / 1_000_000_000_000_000_000,
            stake * limit / 1_000_000,
        ),
{
    let x = stake * limit;
    assert(stake * (limit * FINE) == x * FINE) by (nonlinear_arith)
        requires
            x == stake * limit,
    ;
    assert(x * FINE / 1_000_000_000_000_000_000 == x / 1_000_000);
    let top = limit * FINE;
    if ratio <= top {
        assert(stake * ratio <= stake * top) by (nonlinear_arith)
            requires
                stake >= 0,
                ratio <= top,
        ;
    } else {
        assert(stake * ratio >= stake * top) by (nonlinear_arith)
            requires
                stake >= 0,
                ratio >= top,
        ;
    }
}

/// Each further offense multiplies the share that is taken of a stake by the
/// factor, but for the rounding, whatever the severity, as long as no limit bears
/// on it. Where the factor is above one the penalty grows with every offense by
/// which it grows more than the rounding.
pub proof fn law_share_multiplies(
    config: ConfigView,
    offenses: nat,
    stake: Quantity,
    severity: Option<OffenseSeverity>,
)
    requires
        config.penalty_mode == PenaltyMode::Proportional,
        offenses > 0,
        is_free(config, stake, penalty(config, offenses, Some(stake), severity)),
        is_free(config, stake, penalty(config, offenses + 1, Some(stake), severity)),
    ensures
        ({
            let now = penalty(config, offenses, Some(stake), severity);
            let next = penalty(config, offenses + 1, Some(stake), severity);
            let factor = config.repeat_offense_multiplier.micros;
            &&& next * 1_000_000 <= (now + 1) * factor
            &&& (next + 20) * 1_000_000 > now * factor
            &&& now * (factor - 1_000_000) >= 20_000_000 ==> next > now
        }),
{
    let held = stake.micros as int;
    let factor = config.repeat_offense_multiplier.micros as int;
    let base = base_ratio(config, severity);
    let n = (offenses - 1) as nat;
    let ratio = grown(base, factor, n);
    lemma_grown_positive(base, factor, n);
    lemma_grown_positive(base, factor, n + 1);
    assert(grown(base, factor, n + 1) == ratio * factor / 1_000_000);
    assert((offenses + 1 - 1) as nat == n + 1);
    lemma_next_share(held, ratio, factor);
    lemma_ratio_limit(held, ratio, config.max_slash_ratio.micros as int);
    lemma_ratio_limit(held, grown(base, factor, n + 1), config.max_slash_ratio.micros as int);
    let now = penalty(config, offenses, Some(stake), severity);
    let next = penalty(config, offenses + 1, Some(stake), severity);
    if now * (factor - 1_000_000) >= 20_000_000 {
        assert(now * factor == now * (factor - 1_000_000) + now * 1_000_000) by (nonlinear_arith);
    }
}

/// The first offense costs the share of the stake that the rules name for its
/// severity, and the general share where they name none, as long as no limit bears
/// on it.
pub proof fn law_first_share(
    config: ConfigView,
    stake: Quantity,
    severity: Option<OffenseSeverity>,
    ratio: Quantity,
)
    requires
        config.penalty_mode == PenaltyMode::Proportional,
        is_free(config, stake, stake.micros * ratio.micros / 1_000_000),
        severity matches Some(level) ==> match lookup(config.severity_ratios, level) {
            Some(named) => ratio == named,
            None => ratio == config.base_slash_ratio,
        },
        severity is None ==> ratio == config.base_slash_ratio,
    ensures
        penalty(config, 1, Some(stake), severity) == stake.micros * ratio.micros / 1_000_000,
{
    let held = stake.micros as int;
    let share = ratio.micros as int;
    lemma_ratio_limit(held, share * FINE, config.max_slash_ratio.micros as int);
    lemma_ratio_limit(held, share * FINE, share);
}

/// A severity for which the rules name a share is punished as if that were the
/// general share and nothing were known of the severity.
pub proof fn law_severity_chooses_the_share(
    config: ConfigView,
    offenses: nat,
    stake: Option<Quantity>,
    level: OffenseSeverity,
)
    ensures
        lookup(config.severity_ratios, level) matches Some(named) ==> penalty(
            config,
            offenses,
            stake,
            Some(level),
        ) == penalty(
            ConfigView { base_slash_ratio: named, ..config },
            offenses,
            stake,
            None,
        ),
        lookup(config.severity_ratios, level) is None ==> penalty(
            config,
            offenses,
            stake,
            Some(level),
        ) == penalty(config, offenses, stake, None),
{
}

/// The limits on a penalty for a stake only limit it: what is charged is what
/// would be charged without them, raised to the least amount, cut to the highest
/// and to the stake. Lowering the highest share cuts the penalty to that share.
pub proof fn law_limits_only_limit(
    config: ConfigView,
    offenses: nat,
    stake: Quantity,
    severity: Option<OffenseSeverity>,
    lower: Quantity,
)
    requires
        config.penalty_mode == PenaltyMode::Proportional,
        offenses > 0,
        stake.micros > 0,
        lower.micros <= config.max_slash_ratio.micros,
    ensures
        ({
            let open = ConfigView {
                min_penalty_amount: Quantity { micros: 0 },
                max_penalty_amount: None,
                ..config
            };
            let tight = ConfigView { max_slash_ratio: lower, ..open };
            let charged = penalty(config, offenses, Some(stake), severity);
            let raw = penalty(open, offenses, Some(stake), severity);
            let cut = penalty(tight, offenses, Some(stake), severity);
            let floor = if raw < config.min_penalty_amount.micros {
                config.min_penalty_amount.micros as int
            } else {
                raw
            };
            let capped = match config.max_penalty_amount {
                Some(max) if max.micros < floor => max.micros as int,
                _ => floor,
            };
            let share = stake.micros * lower.micros / 1_000_000;
            &&& charged == if stake.micros < capped {
                stake.micros as int
            } else {
                capped
            }
            &&& cut == if share < raw {
                share
            } else {
                raw
            }
        }),
{
    let held = stake.micros as int;
    let factor = config.repeat_offense_multiplier.micros as int;
    let ratio = grown(base_ratio(config, severity), factor, (offenses - 1) as nat);
    lemma_grown_positive(base_ratio(config, severity), factor, (offenses - 1) as nat);
    lemma_ratio_limit(held, ratio, config.max_slash_ratio.micros as int);
    lemma_ratio_limit(held, ratio, lower.micros as int);
    lemma_share_bounds(held, ratio);
    let a = lower.micros as int;
    let b = config.max_slash_ratio.micros as int;
    assert(0 <= held * a <= held * b) by (nonlinear_arith)
        requires
            held >= 0,
            0 <= a <= b,
    ;
}

/// By default a first offense costs half a per cent of the stake where it is
/// minor, one per cent where it is moderate and five per cent where it is severe,
/// for stakes on which that lies between 1 and 100. A second one costs half as
/// much again.
pub proof fn law_default_shares(stake: Quantity)
    requires
        200_000_000 < stake.micros < 2_000_000_000,
    ensures
        penalty(default_config(), 1, Some(stake), Some(OffenseSeverity::Minor)) == stake.micros
            / 200,
        penalty(default_config(), 1, Some(stake), Some(OffenseSeverity::Moderate)) == stake.micros
            / 100,
        penalty(default_config(), 1, Some(stake), Some(OffenseSeverity::Severe)) == stake.micros
            / 20,
        penalty(default_config(), 1, Some(stake), None) == stake.micros / 100,
        penalty(default_config(), 2, Some(stake), Some(OffenseSeverity::Moderate)) == stake.micros
            * 3 / 200,
        penalty(default_config(), 1, None, None) == 1_000_000,
        penalty(default_config(), 2, None, None) == 1_500_000,
{
    let c = default_config();
    let table = c.severity_ratios;
    assert(keys_distinct(table));
    assert(table[0].0 == OffenseSeverity::Minor);
    assert(table[1].0 == OffenseSeverity::Moderate);
    assert(table[2].0 == OffenseSeverity::Severe);
    lemma_find_at(table, 0);
    lemma_find_at(table, 1);
    lemma_find_at(table, 2);
    reveal_with_fuel(grown, 3);
    let held = stake.micros as int;
    lemma_part(held, slash_ratio(c, 1, Some(OffenseSeverity::Minor)), 5);
    lemma_part(held, slash_ratio(c, 1, Some(OffenseSeverity::Moderate)), 10);
    lemma_part(held, slash_ratio(c, 1, Some(OffenseSeverity::Severe)), 50);
    lemma_part(held, slash_ratio(c, 1, None), 10);
    lemma_part(held, slash_ratio(c, 2, Some(OffenseSeverity::Moderate)), 15);
}

proof fn lemma_part(stake: int, ratio: int, thousandths: int)
    requires
        stake >= 0,
        ratio == thousandths * 1_000_000_000_000_000,
    ensures
        stake * ratio / 1_000_000_000_000_000_000 == stake * thousandths / 1_000,
{
    let x = stake * thousandths;
    assert(stake * ratio == x * 1_000_000_000_000_000) by (nonlinear_arith)
        requires
            x == stake * thousandths,
            ratio == thousandths * 1_000_000_000_000_000,
    ;
    assert(x * 1_000_000_000_000_000 / 1_000_000_000_000_000_000 == x / 1_000);
}

proof fn lemma_penalty_fits(
    config: ConfigView,
    offenses: nat,
    stake: Option<Quantity>,
    severity: Option<OffenseSeverity>,
)
    ensures
        0 <= penalty(config, offenses, stake, severity) <= u64::MAX,
{
    law_penalty_not_negative(config, offenses, stake, severity);
    if offenses > 0 {
        lemma_fixed_bounds(config, offenses);
    }
}

/// What a round of slashing does to the tracker.
proof fn lemma_round_counts(
    start: SlashingState,
    providers: Seq<Seq<u8>>,
    contexts: Seq<ContextView>,
    stakes: Seq<(Seq<u8>, Quantity)>,
    now: DateTime,
    n: nat,
    provider: Seq<u8>,
)
    requires
        lists_once(start.tracker),
        n <= providers.len(),
        has_room(start.tracker, providers.len() as int),
    ensures
        ({
            let a = slashed(start, providers, contexts, now, n).tracker;
            let b = stake_slashed(start, providers, contexts, stakes, now, n).tracker;
            &&& a == b
            &&& lists_once(a)
            &&& a.config == start.tracker.config
            &&& has_room(a, providers.len() - n)
            &&& offense_count(a, provider) == offense_count(start.tracker, provider) + count(
                providers.take(n as int),
                provider,
            )
            &&& lookup(a.last_times, provider) == if providers.take(n as int).contains(provider) {
                Some(now)
            } else {
                lookup(start.tracker.last_times, provider)
            }
        }),
    decreases n,
{
    let list = providers.take(n as int);
    lemma_count_bound(list, provider);
    if n > 0 {
        let m = (n - 1) as nat;
        let one = providers[m as int];
        lemma_round_counts(start, providers, contexts, stakes, now, m, provider);
        lemma_round_counts(start, providers, contexts, stakes, now, m, one);
        let before = slashed(start, providers, contexts, now, m).tracker;
        assert(list.drop_last() =~= providers.take(m as int));
        assert(list.last() == one);
        lemma_room(before, one, now, providers.len() - m);
        law_offenses_are_counted(before, one, now, provider);
        lemma_upsert_lookup(before.last_times, one, now, provider);
        let count: usize = (offense_count(before, one) + 1) as usize;
        lemma_upsert_lookup(before.offenses, one, count, provider);
        lemma_count_bound(providers.take(m as int), provider);
        if providers.take(m as int).contains(provider) {
            let i = choose|i: int| 0 <= i < m && providers.take(m as int)[i] == provider;
            assert(list[i] == provider);
        }
        if one == provider {
            assert(list[m as int] == provider);
        } else if list.contains(provider) {
            let i = choose|i: int| 0 <= i < n && list[i] == provider;
            assert(providers.take(m as int)[i] == provider);
        }
    }
}

/// A round of slashing treats its first providers as a shorter round does.
proof fn lemma_round_prefix(
    start: SlashingState,
    providers: Seq<Seq<u8>>,
    contexts: Seq<ContextView>,
    stakes: Seq<(Seq<u8>, Quantity)>,
    now: DateTime,
    n: nat,
    m: int,
)
    requires
        n <= m <= providers.len(),
    ensures
        slashed(start, providers, contexts, now, n) == slashed(
            start,
            providers.take(m),
            contexts,
            now,
            n,
        ),
        stake_slashed(start, providers, contexts, stakes, now, n) == stake_slashed(
            start,
            providers.take(m),
            contexts,
            stakes,
            now,
            n,
        ),
    decreases n,
{
    if n > 0 {
        lemma_round_prefix(start, providers, contexts, stakes, now, (n - 1) as nat, m);
        let before = slashed(start, providers, contexts, now, (n - 1) as nat).evaluator;
        let a = bare_context(providers[n - 1], providers.len(), now);
        let b = bare_context(providers[n - 1], providers.take(m).len(), now);
        assert(severity(before.history, before.repeat_window, a) == severity(
            before.history,
            before.repeat_window,
            b,
        ));
    }
}

proof fn lemma_round_actions(
    start: SlashingState,
    providers: Seq<Seq<u8>>,
    contexts: Seq<ContextView>,
    stakes: Seq<(Seq<u8>, Quantity)>,
    now: DateTime,
    n: nat,
    i: int,
)
    requires
        start.actions.len() == 0,
        0 <= i < n <= providers.len(),
    ensures
        slashed(start, providers, contexts, now, n).actions.len() == n,
        stake_slashed(start, providers, contexts, stakes, now, n).actions.len() == n,
        slashed(start, providers, contexts, now, n).actions[i] == slashed(
            start,
            providers,
            contexts,
            now,
            (i + 1) as nat,
        ).actions.last(),
        stake_slashed(start, providers, contexts, stakes, now, n).actions[i] == stake_slashed(
            start,
            providers,
            contexts,
            stakes,
            now,
            (i + 1) as nat,
        ).actions.last(),
    decreases n,
{
    law_one_action_per_provider(start, providers, contexts, stakes, now, n);
    law_one_action_per_provider(start, providers, contexts, stakes, now, (n - 1) as nat);
    let ids = |a: ActionView| a.provider_id;
    let a = slashed(start, providers, contexts, now, n).actions;
    let b = stake_slashed(start, providers, contexts, stakes, now, n).actions;
    assert(a.map_values(ids).len() == n && b.map_values(ids).len() == n);
    let c = slashed(start, providers, contexts, now, (n - 1) as nat).actions;
    let d = stake_slashed(start, providers, contexts, stakes, now, (n - 1) as nat).actions;
    assert(c.map_values(ids).len() == n - 1 && d.map_values(ids).len() == n - 1);
    if i < n - 1 {
        lemma_round_actions(start, providers, contexts, stakes, now, (n - 1) as nat, i);
    }
}

/// The action against the `i`-th provider counts its earlier offenses and those of
/// this round up to now, and charges what the rules say for that many. Without
/// stakes the penalty does not depend on the severity; with them it depends on the
/// provider's own stake and the severity that the action names.
pub proof fn law_actions_charge_by_the_rules(
    tracker: TrackerView,
    evaluator: EvaluatorView,
    providers: Seq<Seq<u8>>,
    contexts: Seq<ContextView>,
    stakes: Seq<(Seq<u8>, Quantity)>,
    now: DateTime,
    i: int,
)
    requires
        lists_once(tracker),
        has_room(tracker, providers.len() as int),
        0 <= i < providers.len(),
    ensures
        ({
            let plain = slashed_all(tracker, evaluator, providers, contexts, now).actions;
            let staked = stake_slashed_all(
                tracker,
                evaluator,
                providers,
                contexts,
                stakes,
                now,
            ).actions;
            let offenses = offense_count(tracker, providers[i]) + count(
                providers.take(i + 1),
                providers[i],
            );
            &&& plain.len() == providers.len()
            &&& staked.len() == providers.len()
            &&& plain[i].provider_id == providers[i]
            &&& staked[i].provider_id == providers[i]
            &&& plain[i].offense_count == offenses
            &&& staked[i].offense_count == offenses
            &&& plain[i].penalty_amount.micros == penalty(
                tracker.config,
                offenses as nat,
                None,
                None,
            )
            &&& staked[i].penalty_amount.micros == penalty(
                tracker.config,
                offenses as nat,
                lookup(stakes, providers[i]),
                Some(staked[i].severity),
            )
        }),
{
    let start = SlashingState { tracker, evaluator, actions: Seq::empty() };
    let n = providers.len();
    lemma_round_actions(start, providers, contexts, stakes, now, n, i);
    lemma_round_counts(start, providers, contexts, stakes, now, (i + 1) as nat, providers[i]);
    lemma_round_counts(start, providers, contexts, stakes, now, i as nat, providers[i]);
    let staked = stake_slashed_all(tracker, evaluator, providers, contexts, stakes, now).actions;
    let offenses = offense_count(tracker, providers[i]) + count(
        providers.take(i + 1),
        providers[i],
    );
    lemma_penalty_fits(tracker.config, offenses as nat, None, None);
    lemma_penalty_fits(
        tracker.config,
        offenses as nat,
        lookup(stakes, providers[i]),
        Some(staked[i].severity),
    );
}

/// The severity of the `i`-th action is that of its circumstances, judged by what
/// is known after the providers before it. Where the circumstances are missing it
/// is that of a lone wrong result; where stakes are at hand it is moderate then.
pub proof fn law_actions_name_the_severity(
    tracker: TrackerView,
    evaluator: EvaluatorView,
    providers: Seq<Seq<u8>>,
    contexts: Seq<ContextView>,
    stakes: Seq<(Seq<u8>, Quantity)>,
    now: DateTime,
    i: int,
    lone: ContextView,
)
    requires
        0 <= i < providers.len(),
        lone.provider_id == providers[i],
        lone.offense_time == now,
        lone.offense_type == OffenseView::WrongResult,
        lone.colluding_providers.len() == 0,
    ensures
        ({
            let first = providers.take(i);
            let plain = slashed_all(tracker, evaluator, providers, contexts, now).actions[i];
            let staked = stake_slashed_all(
                tracker,
                evaluator,
                providers,
                contexts,
                stakes,
                now,
            ).actions[i];
            let a = slashed_all(tracker, evaluator, first, contexts, now).evaluator;
            let b = stake_slashed_all(tracker, evaluator, first, contexts, stakes, now).evaluator;
            let window = evaluator.repeat_window;
            &&& i < contexts.len() ==> plain.severity == severity(a.history, window, contexts[i])
            &&& i < contexts.len() ==> staked.severity == severity(b.history, window, contexts[i])
            &&& i >= contexts.len() ==> plain.severity == severity(a.history, window, lone)
            &&& i >= contexts.len() ==> staked.severity == OffenseSeverity::Moderate
        }),
{
    let start = SlashingState { tracker, evaluator, actions: Seq::empty() };
    let n = providers.len();
    lemma_round_actions(start, providers, contexts, stakes, now, n, i);
    lemma_round_prefix(start, providers, contexts, stakes, now, i as nat, i);
    lemma_round_window(start, providers, contexts, stakes, now, i as nat);
    let a = slashed(start, providers, contexts, now, i as nat).evaluator;
    let bare = bare_context(providers[i], providers.len(), now);
    assert(severity(a.history, a.repeat_window, bare) == severity(
        a.history,
        a.repeat_window,
        lone,
    ));
}

proof fn lemma_round_window(
    start: SlashingState,
    providers: Seq<Seq<u8>>,
    contexts: Seq<ContextView>,
    stakes: Seq<(Seq<u8>, Quantity)>,
    now: DateTime,
    n: nat,
)
    ensures
        slashed(start, providers, contexts, now, n).evaluator.repeat_window
            == start.evaluator.repeat_window,
        stake_slashed(start, providers, contexts, stakes, now, n).evaluator.repeat_window
            == start.evaluator.repeat_window,
        slashed(start, providers, contexts, now, n).evaluator.collusion_window
            == start.evaluator.collusion_window,
        stake_slashed(start, providers, contexts, stakes, now, n).evaluator.collusion_window
            == start.evaluator.collusion_window,
    decreases n,
{
    if n > 0 {
        lemma_round_window(start, providers, contexts, stakes, now, (n - 1) as nat);
    }
}

/// One more provider in a round leaves what is known of offenses as judging its
/// circumstances does, and the windows as they are.
pub proof fn law_rounds_are_remembered(
    tracker: TrackerView,
    evaluator: EvaluatorView,
    providers: Seq<Seq<u8>>,
    contexts: Seq<ContextView>,
    stakes: Seq<(Seq<u8>, Quantity)>,
    now: DateTime,
    lone: ContextView,
)
    requires
        providers.len() > 0,
        lone.provider_id == providers.last(),
        lone.offense_time == now,
    ensures
        ({
            let first = providers.drop_last();
            let at = providers.len() - 1;
            let a = slashed_all(tracker, evaluator, providers, contexts, now).evaluator;
            let b = stake_slashed_all(
                tracker,
                evaluator,
                providers,
                contexts,
                stakes,
                now,
            ).evaluator;
            let before_a = slashed_all(tracker, evaluator, first, contexts, now).evaluator;
            let before_b = stake_slashed_all(
                tracker,
                evaluator,
                first,
                contexts,
                stakes,
                now,
            ).evaluator;
            &&& a.history == if at < contexts.len() {
                updated(before_a.history, contexts[at])
            } else {
                updated(before_a.history, lone)
            }
            &&& b.history == if at < contexts.len() {
                updated(before_b.history, contexts[at])
            } else {
                before_b.history
            }
            &&& a.repeat_window == evaluator.repeat_window
            &&& b.repeat_window == evaluator.repeat_window
            &&& a.collusion_window == evaluator.collusion_window
            &&& b.collusion_window == evaluator.collusion_window
        }),
{
    let start = SlashingState { tracker, evaluator, actions: Seq::empty() };
    let at = providers.len() - 1;
    assert(providers.drop_last() =~= providers.take(at));
    lemma_round_prefix(start, providers, contexts, stakes, now, at as nat, at);
    lemma_round_window(start, providers, contexts, stakes, now, providers.len());
}

/// After a round every provider has one offense more for each time it was named,
/// those that were named offended now, and the rules are what they were.
pub proof fn law_rounds_are_counted(
    tracker: TrackerView,
    evaluator: EvaluatorView,
    providers: Seq<Seq<u8>>,
    contexts: Seq<ContextView>,
    stakes: Seq<(Seq<u8>, Quantity)>,
    now: DateTime,
    provider: Seq<u8>,
)
    requires
        lists_once(tracker),
        has_room(tracker, providers.len() as int),
    ensures
        ({
            let a = slashed_all(tracker, evaluator, providers, contexts, now).tracker;
            let b = stake_slashed_all(tracker, evaluator, providers, contexts, stakes, now).tracker;
            &&& b == a
            &&& a.config == tracker.config
            &&& offense_count(a, provider) == offense_count(tracker, provider) + count(
                providers,
                provider,
            )
            &&& providers.contains(provider) ==> lookup(a.last_times, provider) == Some(now)
            &&& !providers.contains(provider) ==> lookup(a.last_times, provider) == lookup(
                tracker.last_times,
                provider,
            )
        }),
{
    let start = SlashingState { tracker, evaluator, actions: Seq::empty() };
    lemma_round_counts(start, providers, contexts, stakes, now, providers.len(), provider);
    assert(providers.take(providers.len() as int) =~= providers);
}

/// The reason of an action names the severity and the number of offenses, and the
/// stake where the penalty goes by it.
pub proof fn law_actions_give_the_reason(
    tracker: TrackerView,
    evaluator: EvaluatorView,
    providers: Seq<Seq<u8>>,
    contexts: Seq<ContextView>,
    stakes: Seq<(Seq<u8>, Quantity)>,
    now: DateTime,
    i: int,
)
    requires
        0 <= i < providers.len(),
    ensures
        ({
            let plain = slashed_all(tracker, evaluator, providers, contexts, now).actions[i];
            let staked = stake_slashed_all(
                tracker,
                evaluator,
                providers,
                contexts,
                stakes,
                now,
            ).actions[i];
            let held: int = match lookup(stakes, providers[i]) {
                Some(amount) => amount.micros as int,
                None => 0,
            };
            &&& plain.reason == "违规严重程度: "@ + severity_text(plain.severity)
                + ", 违规次数: "@ + decimal(plain.offense_count as nat)
            &&& staked.reason == "违规严重程度: "@ + severity_text(staked.severity)
                + ", 违规次数: "@ + decimal(staked.offense_count as nat) + ", 质押金额: "@
                + rounded_text(held, 1_000_000, 2)
        }),
{
    let start = SlashingState { tracker, evaluator, actions: Seq::empty() };
    lemma_round_actions(start, providers, contexts, stakes, now, providers.len(), i);
}

/// By default no penalty on a stake is above 100 or the tenth part of the stake,
/// whatever the number of offenses, but for the least penalty of 1; and none is
/// below that, unless the stake is. Without a stake the penalty stops at 10, which
/// the seventh offense reaches.
pub proof fn law_default_limits(
    offenses: nat,
    stake: Quantity,
    severity: Option<OffenseSeverity>,
)
    requires
        offenses > 0,
        stake.micros > 0,
    ensures
        ({
            let charged = penalty(default_config(), offenses, Some(stake), severity);
            &&& charged <= 100_000_000
            &&& charged <= stake.micros
            &&& charged <= 1_000_000 || charged <= stake.micros / 10
            &&& charged >= 1_000_000 || charged == stake.micros
        }),
        penalty(default_config(), offenses, None, severity) <= 10_000_000,
        offenses >= 7 ==> penalty(default_config(), offenses, None, severity) == 10_000_000,
        offenses < 7 ==> penalty(default_config(), offenses, None, severity) < 10_000_000,
{
    let c = default_config();
    let held = stake.micros as int;
    let ratio = grown(base_ratio(c, severity), 1_500_000, (offenses - 1) as nat);
    lemma_grown_positive(base_ratio(c, severity), 1_500_000, (offenses - 1) as nat);
    lemma_ratio_limit(held, ratio, 100_000);
    lemma_share_bounds(held, ratio);
    reveal_with_fuel(grown, 8);
    assert(grown(1_000_000, 1_500_000, 6) >= 10_000_000 * FINE);
    if offenses >= 7 {
        lemma_grown_monotone(1_000_000, 1_500_000, 6, (offenses - 1) as nat);
        assert(grown(1_000_000, 1_500_000, (offenses - 1) as nat) / (FINE as int) >= 10_000_000);
    } else {
        lemma_grown_monotone(1_000_000, 1_500_000, (offenses - 1) as nat, 5);
        assert(grown(1_000_000, 1_500_000, 5) < 10_000_000 * FINE);
    }
}

/// A new judge of offenses knows of none, and takes an offense within an hour of
/// another for a repetition.
pub proof fn law_new_judge_remembers_an_hour(first: ContextView, second: ContextView)
    requires
        first.provider_id == second.provider_id,
        first.colluding_providers.len() < 2,
        second.colluding_providers.len() < 2,
    ensures
        ({
            let judge = new_evaluator();
            let passed = whole_seconds(elapsed_nanos(second.offense_time, first.offense_time));
            let after = updated(judge.history, first);
            &&& severity(judge.history, judge.repeat_window, first) == OffenseSeverity::Minor
            &&& passed < 3600 ==> severity(after, judge.repeat_window, second)
                == OffenseSeverity::Moderate
            &&& passed >= 3600 && !(second.offense_type is Multiple) ==> severity(
                after,
                judge.repeat_window,
                second,
            ) == OffenseSeverity::Minor
            &&& judge.collusion_window == 60
        }),
{
    let judge = new_evaluator();
    law_first_offense_is_minor(judge.history, judge.repeat_window, first);
    let after = updated(judge.history, first);
    law_history_counts(judge.history, first, first.provider_id);
    law_lone_offense_is_not_severe(after, judge.repeat_window, second);
    law_severity_is_weighed(after, judge.repeat_window, second);
    law_patterns_are_graded(second.offense_type, false);
}

/// There is room for `n` more offenses exactly where counting so many more for any
/// provider, known or not, goes past no limit of the counter.
pub proof fn law_room_is_for_every_provider(tracker: TrackerView, n: int)
    requires
        lists_once(tracker),
        0 <= n <= usize::MAX,
    ensures
        has_room(tracker, n) <==> forall|provider: Seq<u8>|
            #[trigger] offense_count(tracker, provider) + n <= usize::MAX,
{
    if has_room(tracker, n) {
        assert forall|provider: Seq<u8>| #[trigger] offense_count(tracker, provider)
            + n <= usize::MAX by {
            if let Some(i) = find(tracker.offenses, provider) {
                assert(tracker.offenses[i].1 + n <= usize::MAX);
            }
        }
    }
    if forall|provider: Seq<u8>| #[trigger] offense_count(tracker, provider) + n <= usize::MAX {
        assert forall|i: int| 0 <= i < tracker.offenses.len() implies (
        #[trigger] tracker.offenses[i]).1 + n <= usize::MAX by {
            lemma_find_at(tracker.offenses, i);
            assert(offense_count(tracker, tracker.offenses[i].0) == tracker.offenses[i].1);
        }
    }
}

/// A round of penalties ended as it should exactly where the counts, the history
/// and the penalties are all those of the expected state.
pub proof fn law_rounds_end_as_expected(
    state: SlashingState,
    tracker: TrackerView,
    evaluator: EvaluatorView,
    actions: Seq<ActionView>,
)
    ensures
        is_slashed(state, tracker, evaluator, actions) <==> state == (SlashingState {
            tracker,
            evaluator,
            actions,
        }),
{
}

} // verus!
