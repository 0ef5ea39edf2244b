//! How severe an offense is, judged along four dimensions.
//!
//! Each dimension gives a score between 0 and 1 in millionths. The weighted sum
//! decides: 0.7 and more is severe, 0.4 and more is moderate. Whatever the sum,
//! collusion of at least three tenths of the providers is severe, and an
//! offense that repeats within the window is at least moderate.
use crate::fixed::{Decimal, Quantity, Ratio};
use crate::node::NodeId;
use crate::offense::{OffenseContext, OffenseSeverity, OffenseType};
#[allow(unused_imports)]
use crate::offense::{rank, ContextView, OffenseView};
use crate::ordered_map::OrderedMap;
#[allow(unused_imports)]
use crate::ordered_map::{find, keys_distinct, lemma_find_at, lemma_upsert_lookup, lookup, upsert};
use crate::time::DateTime;
#[allow(unused_imports)]
use crate::time::{elapsed_nanos, whole_seconds};
#[allow(unused_imports)]
use crate::views::views;
use vstd::prelude::*;

verus! {

/// How often a provider offended, and when last.
pub type OffenseRecord = (usize, Option<DateTime>);

/// What is known of earlier offenses.
pub type OffenseHistory = Seq<(Seq<u8>, OffenseRecord)>;

/// Whether several providers returned the same wrong result.
pub open spec fn is_collusion(context: ContextView) -> bool {
    context.colluding_providers.len() >= 2
}

/// Whether the colluders are at least so many tenths of the providers.
pub open spec fn colluding_tenths(context: ContextView, tenths: int) -> bool {
    10 * context.colluding_providers.len() >= tenths * context.total_providers
}

/// The score for collusion.
pub open spec fn collusion_score(context: ContextView) -> int {
    if !is_collusion(context) {
        200_000
    } else if colluding_tenths(context, 3) {
        1_000_000
    } else if colluding_tenths(context, 2) {
        800_000
    } else {
        600_000
    }
}

/// Whether the provider offended within the last `window` seconds.
pub open spec fn is_repeat(history: OffenseHistory, window: int, context: ContextView) -> bool {
    match lookup(history, context.provider_id) {
        Some((_, Some(last))) => whole_seconds(elapsed_nanos(context.offense_time, last)) < window,
        _ => false,
    }
}

/// The score for frequency.
pub open spec fn frequency_score(
    history: OffenseHistory,
    window: int,
    context: ContextView,
) -> int {
    match lookup(history, context.provider_id) {
        Some((count, Some(_))) => if is_repeat(history, window, context) {
            if count >= 5 {
                1_000_000
            } else if count >= 3 {
                800_000
            } else {
                600_000
            }
        } else {
            300_000
        },
        _ => 200_000,
    }
}

/// Whether a ratio is at least so many millionths.
pub open spec fn at_least(ratio: Ratio, micros: int) -> bool {
    match ratio {
        Ratio::Finite(value) => value.micros >= micros,
        Ratio::Infinite => true,
    }
}

/// Whether a cost differs by at least so many tenths of the expected one.
pub open spec fn differs_by_tenths(difference: Quantity, expected: Decimal, tenths: int) -> bool {
    expected.micros <= 0 || 10 * difference.micros >= tenths * expected.micros
}

/// The highest of the scores of several offenses.
pub open spec fn highest_score(offenses: Seq<OffenseView>, collusion: bool) -> int
    decreases offenses,
{
    if offenses.len() == 0 {
        0
    } else {
        let before = highest_score(offenses.drop_last(), collusion);
        let score = pattern_score(offenses.last(), collusion);
        if score > before {
            score
        } else {
            before
        }
    }
}

/// The score for the pattern of the offense. That of several offenses is the
/// highest of their scores and a fifth more, but no more than 1.
pub open spec fn pattern_score(offense: OffenseView, collusion: bool) -> int
    decreases offense,
{
    match offense {
        OffenseView::WrongResult => if collusion {
            800_000
        } else {
            300_000
        },
        OffenseView::ResourceInflation { inflation_ratio, .. } => if at_least(
            inflation_ratio,
            2_000_000,
        ) {
            900_000
        } else if at_least(inflation_ratio, 1_500_000) {
            700_000
        } else {
            500_000
        },
        OffenseView::CostFraud { expected_cost, cost_difference, .. } => if differs_by_tenths(
            cost_difference,
            expected_cost,
            2,
        ) {
            900_000
        } else if differs_by_tenths(cost_difference, expected_cost, 1) {
            700_000
        } else {
            500_000
        },
        OffenseView::TimestampAnomaly { time_difference_secs, .. } => if time_difference_secs
            > 3600 {
            800_000
        } else if time_difference_secs > 300 {
            500_000
        } else {
            200_000
        },
        OffenseView::FormatViolation { .. } => 600_000,
        OffenseView::Multiple(offenses) => {
            let raised = highest_score(offenses, collusion) * 12 / 10;
            if raised > 1_000_000 {
                1_000_000
            } else {
                raised
            }
        },
    }
}

/// The score for the provider's record.
pub open spec fn history_score(history: OffenseHistory, provider: Seq<u8>) -> int {
    match lookup(history, provider) {
        Some((count, _)) => if count >= 10 {
            1_000_000
        } else if count >= 5 {
            800_000
        } else if count >= 2 {
            500_000
        } else {
            300_000
        },
        None => 200_000,
    }
}

/// The weighted sum of the scores, in hundredths of a millionth.
pub open spec fn severity_score(
    history: OffenseHistory,
    window: int,
    context: ContextView,
) -> int {
    collusion_score(context) * 40 + frequency_score(history, window, context) * 25 + pattern_score(
        context.offense_type,
        is_collusion(context),
    ) * 20 + history_score(history, context.provider_id) * 15
}

/// The severity of an offense, given what is known of earlier ones.
pub open spec fn severity(
    history: OffenseHistory,
    window: int,
    context: ContextView,
) -> OffenseSeverity {
    let score = severity_score(history, window, context);
    if score >= 70_000_000 || (is_collusion(context) && colluding_tenths(context, 3)) {
        OffenseSeverity::Severe
    } else if score >= 40_000_000 || is_repeat(history, window, context) {
        OffenseSeverity::Moderate
    } else {
        OffenseSeverity::Minor
    }
}

/// What is known after an offense.
pub open spec fn updated(history: OffenseHistory, context: ContextView) -> OffenseHistory {
    let count: usize = match lookup(history, context.provider_id) {
        Some((count, _)) => (count + 1) as usize,
        None => 1,
    };
    upsert(history, context.provider_id, (count, Some(context.offense_time)))
}

/// Whether one more offense of a provider can be counted.
pub open spec fn has_next(history: OffenseHistory, provider: Seq<u8>) -> bool {
    match lookup(history, provider) {
        Some((count, _)) => count < usize::MAX,
        None => true,
    }
}

/// Whether `n` more offenses of any provider can be counted.
pub open spec fn countable(history: OffenseHistory, n: int) -> bool {
    n <= usize::MAX && forall|i: int|
        0 <= i < history.len() ==> (#[trigger] history[i]).1.0 + n <= usize::MAX
}

/// Counting an offense leaves room for one less.
pub proof fn lemma_countable(history: OffenseHistory, context: ContextView, n: int)
    requires
        countable(history, n),
        n > 0,
    ensures
        has_next(history, context.provider_id),
        countable(updated(history, context), n - 1),
{
    let after = updated(history, context);
    assert forall|i: int| 0 <= i < after.len() implies (#[trigger] after[i]).1.0 + (n - 1)
        <= usize::MAX by {
        if i < history.len() {
            assert(history[i].1.0 + n <= usize::MAX);
        }
    }
}

proof fn lemma_scores(offense: OffenseView, collusion: bool)
    ensures
        0 <= pattern_score(offense, collusion) <= 1_000_000,
    decreases offense,
{
    if let OffenseView::Multiple(offenses) = offense {
        lemma_highest(offenses, collusion);
    }
}

proof fn lemma_highest(offenses: Seq<OffenseView>, collusion: bool)
    ensures
        0 <= highest_score(offenses, collusion) <= 1_000_000,
    decreases offenses,
{
    if offenses.len() > 0 {
        lemma_highest(offenses.drop_last(), collusion);
        lemma_scores(offenses.last(), collusion);
    }
}

/// No offense scores more than the highest, which is the score of one of them
/// unless there is none above zero.
proof fn lemma_highest_is_reached(offenses: Seq<OffenseView>, collusion: bool)
    ensures
        forall|o: OffenseView| #[trigger]
            offenses.contains(o) ==> pattern_score(o, collusion) <= highest_score(
                offenses,
                collusion,
            ),
        highest_score(offenses, collusion) == 0 || exists|o: OffenseView| #[trigger]
            offenses.contains(o) && pattern_score(o, collusion) == highest_score(
                offenses,
                collusion,
            ),
    decreases offenses.len(),
{
    if offenses.len() > 0 {
        let front = offenses.drop_last();
        let last = offenses.last();
        lemma_highest_is_reached(front, collusion);
        assert(offenses.contains(last)) by {
            assert(offenses[offenses.len() - 1] == last);
        }
        assert forall|o: OffenseView| #[trigger] offenses.contains(o) implies pattern_score(
            o,
            collusion,
        ) <= highest_score(offenses, collusion) by {
            let i = choose|i: int| 0 <= i < offenses.len() && offenses[i] == o;
            if i < front.len() {
                assert(front[i] == o);
                assert(front.contains(o));
            }
        }
        assert forall|o: OffenseView| #[trigger] front.contains(o) implies offenses.contains(o) by {
            let i = choose|i: int| 0 <= i < front.len() && front[i] == o;
            assert(offenses[i] == o);
        }
    }
}

/// A combined offense scores a fifth more than the worst of its parts, but no
/// more than 1. So it scores no less than each of them, and nothing where there
/// are none.
pub proof fn law_combined_offense_is_worse(
    offenses: Seq<OffenseView>,
    part: OffenseView,
    collusion: bool,
)
    ensures
        0 <= pattern_score(OffenseView::Multiple(offenses), collusion) <= 1_000_000,
        offenses.contains(part) ==> pattern_score(OffenseView::Multiple(offenses), collusion)
            >= pattern_score(part, collusion),
        offenses.contains(part) && (forall|o: OffenseView| #[trigger]
            offenses.contains(o) ==> pattern_score(o, collusion) <= pattern_score(part, collusion))
            ==> pattern_score(OffenseView::Multiple(offenses), collusion) == {
            let raised = pattern_score(part, collusion) * 12 / 10;
            if raised > 1_000_000 {
                1_000_000
            } else {
                raised
            }
        },
        offenses.len() == 0 ==> pattern_score(OffenseView::Multiple(offenses), collusion) == 0,
{
    lemma_scores(OffenseView::Multiple(offenses), collusion);
    lemma_highest(offenses, collusion);
    lemma_highest_is_reached(offenses, collusion);
    lemma_scores(part, collusion);
}

/// Neither the order of the parts nor how often one occurs matters to the score
/// of a combined offense.
pub proof fn law_order_of_parts_does_not_matter(
    a: Seq<OffenseView>,
    b: Seq<OffenseView>,
    collusion: bool,
)
    requires
        forall|o: OffenseView| #[trigger] a.contains(o) <==> b.contains(o),
    ensures
        pattern_score(OffenseView::Multiple(a), collusion) == pattern_score(
            OffenseView::Multiple(b),
            collusion,
        ),
{
    lemma_highest_is_reached(a, collusion);
    lemma_highest_is_reached(b, collusion);
    lemma_highest(a, collusion);
    lemma_highest(b, collusion);
    assert forall|o: OffenseView| #[trigger] b.contains(o) implies a.contains(o) by {}
}

/// A total of 0.7 is severe, and one of 0.4 is at least moderate.
pub proof fn law_score_decides(history: OffenseHistory, window: int, context: ContextView)
    ensures
        severity_score(history, window, context) >= 70_000_000 ==> severity(
            history,
            window,
            context,
        ) == OffenseSeverity::Severe,
        severity_score(history, window, context) >= 40_000_000 ==> rank(
            severity(history, window, context),
        ) >= rank(OffenseSeverity::Moderate),
        0 <= severity_score(history, window, context) <= 100_000_000,
{
    lemma_scores(context.offense_type, is_collusion(context));
}

/// Collusion of at least three tenths of the providers is always severe.
pub proof fn law_collusion_is_severe(history: OffenseHistory, window: int, context: ContextView)
    requires
        context.colluding_providers.len() >= 2,
        10 * context.colluding_providers.len() >= 3 * context.total_providers,
    ensures
        severity(history, window, context) == OffenseSeverity::Severe,
{
}

/// A second offense within the window is never minor.
pub proof fn law_repeat_is_not_minor(
    history: OffenseHistory,
    window: int,
    first: ContextView,
    second: ContextView,
)
    requires
        keys_distinct(history),
        first.provider_id == second.provider_id,
        whole_seconds(elapsed_nanos(second.offense_time, first.offense_time)) < window,
    ensures
        rank(severity(updated(history, first), window, second)) >= rank(OffenseSeverity::Moderate),
{
    let record: OffenseRecord = match lookup(history, first.provider_id) {
        Some((count, _)) => ((count + 1) as usize, Some(first.offense_time)),
        None => (1usize, Some(first.offense_time)),
    };
    lemma_upsert_lookup(history, first.provider_id, record, first.provider_id);
}

/// A single wrong result of a provider without a record is minor.
pub proof fn law_first_single_error_is_minor(
    history: OffenseHistory,
    window: int,
    context: ContextView,
)
    requires
        lookup(history, context.provider_id) is None,
        context.colluding_providers.len() < 2,
        context.offense_type == OffenseView::WrongResult,
    ensures
        severity(history, window, context) == OffenseSeverity::Minor,
{
}

/// Judging an offense counts it for its provider and for nobody else.
pub proof fn law_history_counts(history: OffenseHistory, context: ContextView, other: Seq<u8>)
    requires
        keys_distinct(history),
        has_next(history, context.provider_id),
    ensures
        lookup(updated(history, context), context.provider_id) == Some(
            (
                (match lookup(history, context.provider_id) {
                    Some((count, _)) => count + 1,
                    None => 1,
                }) as usize,
                Some(context.offense_time),
            ),
        ),
        other != context.provider_id ==> lookup(updated(history, context), other) == lookup(
            history,
            other,
        ),
{
    let record: OffenseRecord = match lookup(history, context.provider_id) {
        Some((count, _)) => ((count + 1) as usize, Some(context.offense_time)),
        None => (1usize, Some(context.offense_time)),
    };
    lemma_upsert_lookup(history, context.provider_id, record, other);
}

/// Judges the severity of offenses.
#[derive(Debug, PartialEq, Eq)]
pub struct SeverityEvaluator {
    /// Earlier offenses: how many, and when the last.
    offense_history: OrderedMap<NodeId, OffenseRecord>,
    /// Seconds within which the same wrong result counts as collusion.
    collusion_detection_window: i64,
    /// Seconds within which an offense counts as repeated.
    repeat_offense_window: i64,
}

/// The mathematical value of a [`SeverityEvaluator`].
pub struct EvaluatorView {
    pub history: OffenseHistory,
    pub collusion_window: int,
    pub repeat_window: int,
}

impl View for SeverityEvaluator {
    type V = EvaluatorView;

    closed spec fn view(&self) -> EvaluatorView {
        EvaluatorView {
            history: self.offense_history@,
            collusion_window: self.collusion_detection_window as int,
            repeat_window: self.repeat_offense_window as int,
        }
    }
}

impl SeverityEvaluator {
    /// An evaluator that knows of no offense. It looks for collusion within a
    /// minute and for repetition within an hour.
    pub fn new() -> (evaluator: Self)
        ensures
            evaluator@ == (EvaluatorView {
                history: Seq::empty(),
                collusion_window: 60,
                repeat_window: 3600,
            }),
            keys_distinct(evaluator@.history),
    {
        SeverityEvaluator {
            offense_history: OrderedMap::new(),
            collusion_detection_window: 60,
            repeat_offense_window: 3600,
        }
    }

    /// Judges an offense and remembers it.
    pub fn evaluate_severity(&mut self, context: &OffenseContext) -> (level: OffenseSeverity)
        requires
            has_next(old(self)@.history, context@.provider_id),
        ensures
            level == severity(old(self)@.history, old(self)@.repeat_window, context@),
            final(self)@ == (EvaluatorView {
                history: updated(old(self)@.history, context@),
                ..old(self)@
            }),
            keys_distinct(final(self)@.history),
    {
        let collusion: u64 = self.evaluate_collusion(context);
        let frequency: u64 = self.evaluate_frequency(context);
        let pattern: u64 = self.evaluate_pattern(context);
        let history: u64 = self.evaluate_history(context);
        let repeat = self.repeats(context);
        let score: u64 = collusion * 40 + frequency * 25 + pattern * 20 + history * 15;
        self.update_history(context);
        proof {
            use_type_invariant(&self.offense_history);
        }
        let colluders: u128 = context.colluding_providers.len() as u128;
        if score >= 70_000_000 || (colluders >= 2 && 10 * colluders >= 3
            * context.total_providers as u128) {
            OffenseSeverity::Severe
        } else if score >= 40_000_000 || repeat {
            OffenseSeverity::Moderate
        } else {
            OffenseSeverity::Minor
        }
    }

    /// The score for collusion.
    fn evaluate_collusion(&self, context: &OffenseContext) -> (score: u64)
        ensures
            score == collusion_score(context@),
            score <= 1_000_000,
    {
        let colluders: u128 = context.colluding_providers.len() as u128;
        let total: u128 = context.total_providers as u128;
        if colluders < 2 {
            200_000
        } else if 10 * colluders >= 3 * total {
            1_000_000
        } else if 10 * colluders >= 2 * total {
            800_000
        } else {
            600_000
        }
    }

    /// Whether the provider offended within the window.
    fn repeats(&self, context: &OffenseContext) -> (repeat: bool)
        ensures
            repeat == is_repeat(self@.history, self@.repeat_window, context@),
    {
        match self.offense_history.get(&context.provider_id) {
            Some(record) => match record.1 {
                Some(last) => context.offense_time.seconds_since(&last)
                    < self.repeat_offense_window,
                None => false,
            },
            None => false,
        }
    }

    /// The score for frequency.
    fn evaluate_frequency(&self, context: &OffenseContext) -> (score: u64)
        ensures
            score == frequency_score(self@.history, self@.repeat_window, context@),
            score <= 1_000_000,
    {
        match self.offense_history.get(&context.provider_id) {
            Some(record) => match record.1 {
                Some(_) => if self.repeats(context) {
                    if record.0 >= 5 {
                        1_000_000
                    } else if record.0 >= 3 {
                        800_000
                    } else {
                        600_000
                    }
                } else {
                    300_000
                },
                None => 200_000,
            },
            None => 200_000,
        }
    }

    /// The score for the pattern of the offense.
    pub fn evaluate_pattern(&self, context: &OffenseContext) -> (score: u64)
        ensures
            score == pattern_score(context@.offense_type, is_collusion(context@)),
            score <= 1_000_000,
    {
        score_offense(&context.offense_type, context.colluding_providers.len() >= 2)
    }

    /// The score for the provider's record.
    fn evaluate_history(&self, context: &OffenseContext) -> (score: u64)
        ensures
            score == history_score(self@.history, context@.provider_id),
            score <= 1_000_000,
    {
        match self.offense_history.get(&context.provider_id) {
            Some(record) => if record.0 >= 10 {
                1_000_000
            } else if record.0 >= 5 {
                800_000
            } else if record.0 >= 2 {
                500_000
            } else {
                300_000
            },
            None => 200_000,
        }
    }

    /// Remembers an offense.
    fn update_history(&mut self, context: &OffenseContext)
        requires
            has_next(old(self)@.history, context@.provider_id),
        ensures
            final(self)@ == (EvaluatorView {
                history: updated(old(self)@.history, context@),
                ..old(self)@
            }),
    {
        let count: usize = match self.offense_history.get(&context.provider_id) {
            Some(record) => record.0 + 1,
            None => 1,
        };
        self.offense_history.insert(context.provider_id, (count, Some(context.offense_time)));
    }

    /// What is known of a provider: how often it offended, and when last.
    pub fn get_offense_history(&self, provider_id: &NodeId) -> (record: Option<OffenseRecord>)
        ensures
            record == lookup(self@.history, provider_id@),
            keys_distinct(self@.history),
    {
        proof {
            use_type_invariant(&self.offense_history);
        }
        match self.offense_history.get(provider_id) {
            Some(record) => Some(*record),
            None => None,
        }
    }

    /// Whether `n` more offenses of any provider can be counted.
    pub fn can_count(&self, n: usize) -> (can: bool)
        ensures
            can == countable(self@.history, n as int),
            keys_distinct(self@.history),
    {
        proof {
            use_type_invariant(&self.offense_history);
        }
        let mut i: usize = 0;
        while i < self.offense_history.len()
            invariant
                i <= self.offense_history@.len(),
                keys_distinct(self@.history),
                forall|k: int|
                    0 <= k < i ==> (#[trigger] self.offense_history@[k]).1.0 + n <= usize::MAX,
            decreases self.offense_history@.len() - i,
        {
            let record: OffenseRecord = *self.offense_history.value_at(i);
            assert(record == self.offense_history@[i as int].1);
            if record.0 > usize::MAX - n {
                return false;
            }
            i += 1;
        }
        true
    }
}

impl Default for SeverityEvaluator {
    fn default() -> (evaluator: Self)
        ensures
            evaluator@ == (EvaluatorView {
                history: Seq::empty(),
                collusion_window: 60,
                repeat_window: 3600,
            }),
            keys_distinct(evaluator@.history),
    {
        SeverityEvaluator::new()
    }
}

fn score_offense(offense: &OffenseType, collusion: bool) -> (score: u64)
    ensures
        score == pattern_score(offense@, collusion),
        score <= 1_000_000,
    decreases offense,
{
    match offense {
        OffenseType::WrongResult => if collusion {
            800_000
        } else {
            300_000
        },
        OffenseType::ResourceInflation { inflation_ratio, .. } => {
            let (high, medium) = match inflation_ratio {
                Ratio::Finite(value) => (value.micros >= 2_000_000, value.micros >= 1_500_000),
                Ratio::Infinite => (true, true),
            };
            if high {
                900_000
            } else if medium {
                700_000
            } else {
                500_000
            }
        },
        OffenseType::CostFraud { expected_cost, cost_difference, .. } => {
            let difference: i128 = cost_difference.micros as i128;
            let expected: i128 = expected_cost.micros as i128;
            if expected <= 0 || 10 * difference >= 2 * expected {
                900_000
            } else if 10 * difference >= expected {
                700_000
            } else {
                500_000
            }
        },
        OffenseType::TimestampAnomaly { time_difference_secs, .. } => if *time_difference_secs
            > 3600 {
            800_000
        } else if *time_difference_secs > 300 {
            500_000
        } else {
            200_000
        },
        OffenseType::FormatViolation { .. } => 600_000,
        OffenseType::Multiple(offenses) => {
            assert(offense@->Multiple_0 =~= views(offenses@));
            let max: u64 = score_highest(offenses, collusion);
            let raised: u64 = max * 12 / 10;
            if raised > 1_000_000 {
                1_000_000
            } else {
                raised
            }
        },
    }
}

fn score_highest(offenses: &Vec<OffenseType>, collusion: bool) -> (max: u64)
    ensures
        max == highest_score(views(offenses@), collusion),
        max <= 1_000_000,
    decreases offenses,
{
    let ghost all = views(offenses@);
    let mut max: u64 = 0;
    let mut i: usize = 0;
    while i < offenses.len()
        invariant
            i <= offenses.len(),
            all == views(offenses@),
            max == highest_score(all.take(i as int), collusion),
            max <= 1_000_000,
        decreases offenses.len() - i,
    {
        assert(all.take(i + 1).drop_last() =~= all.take(i as int));
        let score: u64 = score_offense(&offenses[i], collusion);
        if score > max {
            max = score;
        }
        i += 1;
    }
    assert(all.take(i as int) =~= all);
    max
}

// ---------------------------------------------------------------- laws

/// The severity follows from four shares of a hundred: up to 40 for collusion, 25
/// for frequency, 20 for the pattern and 15 for the record. From 70 on, and for a
/// ring of at least two that is three tenths of the providers, it is severe. Below
/// 40 it is minor, unless there is such a ring or the offense repeats within the
/// window. Nothing else about an offense counts.
pub proof fn law_severity_is_weighed(
    history: OffenseHistory,
    window: int,
    context: ContextView,
)
    ensures
        ({
            let ring = context.colluding_providers.len();
            let all = context.total_providers;
            let earlier = lookup(history, context.provider_id);
            let large = ring >= 2 && 10 * ring >= 3 * all;
            let again = earlier matches Some((_, Some(last))) && whole_seconds(
                elapsed_nanos(context.offense_time, last),
            ) < window;
            let collusion: int = if ring < 2 {
                20
            } else if large {
                100
            } else if 10 * ring >= 2 * all {
                80
            } else {
                60
            };
            let frequency: int = if earlier is None || earlier.unwrap().1 is None {
                20
            } else if !again {
                30
            } else if earlier.unwrap().0 < 3 {
                60
            } else if earlier.unwrap().0 < 5 {
                80
            } else {
                100
            };
            let record: int = if earlier is None {
                20
            } else if earlier.unwrap().0 < 2 {
                30
            } else if earlier.unwrap().0 < 5 {
                50
            } else if earlier.unwrap().0 < 10 {
                80
            } else {
                100
            };
            let pattern = pattern_score(context.offense_type, ring >= 2);
            let weight = 10_000 * (40 * collusion + 25 * frequency + 15 * record) + 20 * pattern;
            let level = severity(history, window, context);
            &&& level == OffenseSeverity::Severe <==> weight >= 70_000_000 || large
            &&& level == OffenseSeverity::Minor <==> weight < 40_000_000 && !large && !again
        }),
{
}

/// How bad the pattern of a single offense is, in millionths.
pub proof fn law_patterns_are_graded(offense: OffenseView, collusion: bool)
    ensures
        match offense {
            OffenseView::WrongResult => pattern_score(offense, collusion) == if collusion {
                800_000int
            } else {
                300_000int
            },
            OffenseView::ResourceInflation { inflation_ratio: Ratio::Infinite, .. } => {
                pattern_score(offense, collusion) == 900_000
            },
            OffenseView::ResourceInflation { inflation_ratio: Ratio::Finite(ratio), .. } => {
                &&& pattern_score(offense, collusion) == 900_000 <==> ratio.micros >= 2_000_000
                &&& pattern_score(offense, collusion) == 700_000 <==> 1_500_000 <= ratio.micros
                    < 2_000_000
                &&& pattern_score(offense, collusion) == 500_000 <==> ratio.micros < 1_500_000
            },
            OffenseView::CostFraud { expected_cost, cost_difference, .. } => {
                let fifth = expected_cost.micros <= 0 || 5 * cost_difference.micros
                    >= expected_cost.micros;
                let tenth = expected_cost.micros <= 0 || 10 * cost_difference.micros
                    >= expected_cost.micros;
                &&& pattern_score(offense, collusion) == 900_000 <==> fifth
                &&& pattern_score(offense, collusion) == 700_000 <==> tenth && !fifth
                &&& pattern_score(offense, collusion) == 500_000 <==> !tenth
            },
            OffenseView::TimestampAnomaly { time_difference_secs, .. } => {
                &&& pattern_score(offense, collusion) == 800_000 <==> time_difference_secs > 3600
                &&& pattern_score(offense, collusion) == 500_000 <==> 300 < time_difference_secs
                    <= 3600
                &&& pattern_score(offense, collusion) == 200_000 <==> time_difference_secs <= 300
            },
            OffenseView::FormatViolation { .. } => pattern_score(offense, collusion) == 600_000,
            OffenseView::Multiple(_) => true,
        },
{
}

/// The first offense of a provider without accomplices is minor, of whatever type
/// it is.
pub proof fn law_first_offense_is_minor(
    history: OffenseHistory,
    window: int,
    context: ContextView,
)
    requires
        lookup(history, context.provider_id) is None,
        context.colluding_providers.len() < 2,
    ensures
        severity(history, window, context) == OffenseSeverity::Minor,
{
    lemma_scores(context.offense_type, is_collusion(context));
}

/// Without accomplices no offense is severe, however often the provider offended
/// before.
pub proof fn law_lone_offense_is_not_severe(
    history: OffenseHistory,
    window: int,
    context: ContextView,
)
    requires
        context.colluding_providers.len() < 2,
    ensures
        severity(history, window, context) != OffenseSeverity::Severe,
{
    lemma_scores(context.offense_type, is_collusion(context));
}

/// A score below 0.7 without a ring of three tenths is not severe; one below 0.4
/// that is not repeated either is minor.
pub proof fn law_low_score_is_lenient(
    history: OffenseHistory,
    window: int,
    context: ContextView,
)
    requires
        context.colluding_providers.len() < 2 || 10 * context.colluding_providers.len() < 3
            * context.total_providers,
    ensures
        severity_score(history, window, context) < 70_000_000 ==> severity(
            history,
            window,
            context,
        ) != OffenseSeverity::Severe,
        severity_score(history, window, context) < 40_000_000 && (lookup(
            history,
            context.provider_id,
        ) matches Some((_, Some(last))) ==> whole_seconds(
            elapsed_nanos(context.offense_time, last),
        ) >= window) ==> severity(history, window, context) == OffenseSeverity::Minor,
{
}

/// A longer record never makes an offense milder, nor does a larger ring among as
/// many providers, nor a worse pattern.
pub proof fn law_aggravation_is_never_milder(
    history: OffenseHistory,
    worse_history: OffenseHistory,
    window: int,
    context: ContextView,
    worse: ContextView,
)
    requires
        worse.provider_id == context.provider_id,
        worse.offense_time == context.offense_time,
        worse.total_providers == context.total_providers,
        worse.colluding_providers.len() >= context.colluding_providers.len(),
        pattern_score(worse.offense_type, worse.colluding_providers.len() >= 2) >= pattern_score(
            context.offense_type,
            context.colluding_providers.len() >= 2,
        ),
        lookup(history, context.provider_id) matches Some((n, time)) ==> lookup(
            worse_history,
            context.provider_id,
        ) matches Some((m, same)) && m >= n && same == time,
    ensures
        rank(severity(worse_history, window, worse)) >= rank(severity(history, window, context)),
{
    assert(collusion_score(worse) >= collusion_score(context));
    assert(frequency_score(worse_history, window, worse) >= frequency_score(
        history,
        window,
        context,
    ));
    assert(history_score(worse_history, worse.provider_id) >= history_score(
        history,
        context.provider_id,
    ));
}

/// Hashes, usage and costs that are noted with an offense have no bearing on its
/// severity.
pub proof fn law_remarks_do_not_count(
    history: OffenseHistory,
    window: int,
    a: ContextView,
    b: ContextView,
)
    requires
        a.provider_id == b.provider_id,
        a.offense_time == b.offense_time,
        a.offense_type == b.offense_type,
        a.colluding_providers.len() == b.colluding_providers.len(),
        a.total_providers == b.total_providers,
    ensures
        severity(history, window, a) == severity(history, window, b),
{
}

/// `n` more offenses can be counted exactly where so many more of any provider,
/// known or not, go past no limit of the counter.
pub proof fn law_countable_is_for_every_provider(history: OffenseHistory, n: int)
    requires
        keys_distinct(history),
        0 <= n <= usize::MAX,
    ensures
        countable(history, n) <==> forall|provider: Seq<u8>|
            #![trigger lookup(history, provider)]
            lookup(history, provider) is Some ==> lookup(history, provider).unwrap().0 + n
                <= usize::MAX,
{
    if countable(history, n) {
        assert forall|provider: Seq<u8>|
            #![trigger lookup(history, provider)]
            lookup(history, provider) is Some implies lookup(history, provider).unwrap().0 + n
                <= usize::MAX by {
            if let Some(i) = find(history, provider) {
                assert(history[i].1.0 + n <= usize::MAX);
            }
        }
    } else {
        let i = choose|i: int|
            0 <= i < history.len() && (#[trigger] history[i]).1.0 + n > usize::MAX;
        lemma_find_at(history, i);
        assert(lookup(history, history[i].0) == Some(history[i].1));
    }
}

} // verus!
