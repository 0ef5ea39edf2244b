//! Validation of the results of a single provider.
//!
//! Checked are the format and completeness of the results, the reported
//! resource usage, the reported cost and the times of the commands.
use crate::command::ExeScriptCommandResult;
#[allow(unused_imports)]
use crate::command::CommandView;
#[allow(unused_imports)]
use crate::consensus::{count, lemma_count_bound};
use crate::fixed::{
    distance_micros, push_decimal_number, push_rounded, quotient, Decimal, Quantity, Ratio,
};
#[allow(unused_imports)]
use crate::fixed::{distance, micros_text, quotient_micros, rounded_text, saturated};
use crate::offense::OffenseType;
#[allow(unused_imports)]
use crate::offense::OffenseView;
use crate::ordered_map::OrderedMap;
#[allow(unused_imports)]
use crate::ordered_map::lookup;
use crate::text::{push_decimal, push_decimal_int};
#[allow(unused_imports)]
use crate::text::{decimal, decimal_int};
use crate::time::{utc_now, DateTime};
#[allow(unused_imports)]
use crate::time::{elapsed_nanos, is_later, whole_seconds};
use crate::views::duplicate_all;
#[allow(unused_imports)]
use crate::views::{view_opt, views};
use std::collections::HashSet;
use vstd::prelude::*;

verus! {

/// What a validation found.
#[derive(Debug, PartialEq, Eq)]
pub struct ValidationResult {
    /// Whether nothing was found.
    pub is_valid: bool,
    /// The offenses that were found; none where the result is valid.
    pub offenses: Vec<OffenseType>,
    /// Errors and warnings.
    pub errors: Vec<String>,
}

/// The mathematical value of a [`ValidationResult`].
pub struct ValidationView {
    pub is_valid: bool,
    pub offenses: Seq<OffenseView>,
    pub errors: Seq<Seq<char>>,
}

impl View for ValidationResult {
    type V = ValidationView;

    open spec fn view(&self) -> ValidationView {
        ValidationView {
            is_valid: self.is_valid,
            offenses: views(self.offenses@),
            errors: views(self.errors@),
        }
    }
}

impl Clone for ValidationResult {
    fn clone(&self) -> (copy: Self)
        ensures
            copy@ == self@,
    {
        ValidationResult {
            is_valid: self.is_valid,
            offenses: duplicate_all(self.offenses.as_slice()),
            errors: duplicate_all(self.errors.as_slice()),
        }
    }
}

/// What a validation with these findings returns.
pub open spec fn verdict(offenses: Seq<OffenseView>, errors: Seq<Seq<char>>) -> ValidationView {
    ValidationView { is_valid: offenses.len() == 0, offenses, errors }
}

// ---------------------------------------------------------------- format

/// A sorted sequence with one more number in its place.
pub open spec fn placed(sorted: Seq<u32>, x: u32) -> Seq<u32>
    decreases sorted.len(),
{
    if sorted.len() == 0 {
        seq![x]
    } else if sorted.last() <= x {
        sorted.push(x)
    } else {
        placed(sorted.drop_last(), x).push(sorted.last())
    }
}

/// The numbers in ascending order.
pub open spec fn ascending(numbers: Seq<u32>) -> Seq<u32>
    decreases numbers.len(),
{
    if numbers.len() == 0 {
        Seq::empty()
    } else {
        placed(ascending(numbers.drop_last()), numbers.last())
    }
}

/// The indices of the commands.
pub open spec fn indices(commands: Seq<CommandView>) -> Seq<u32> {
    commands.map_values(|c: CommandView| c.index)
}

/// What is said of a number that is not at its place.
pub open spec fn gap_text(i: int, index: u32) -> Seq<char> {
    "Index discontinuity: expected "@ + decimal(i as nat) + ", got "@ + decimal(index as nat)
}

/// What is said of the sorted indices that are not at their places.
pub open spec fn gaps(sorted: Seq<u32>) -> Seq<Seq<char>>
    decreases sorted.len(),
{
    if sorted.len() == 0 {
        Seq::empty()
    } else {
        let i = sorted.len() - 1;
        if sorted[i] != i as u32 {
            gaps(sorted.drop_last()).push(gap_text(i, sorted[i]))
        } else {
            gaps(sorted.drop_last())
        }
    }
}

/// What is said of the commands whose index came up before.
pub open spec fn repeats(numbers: Seq<u32>) -> Seq<Seq<char>>
    decreases numbers.len(),
{
    if numbers.len() == 0 {
        Seq::empty()
    } else {
        let before = repeats(numbers.drop_last());
        if numbers.drop_last().contains(numbers.last()) {
            before.push("Duplicate index: "@ + decimal(numbers.last() as nat))
        } else {
            before
        }
    }
}

/// Violations of the format with the given descriptions.
pub open spec fn violations(texts: Seq<Seq<char>>) -> Seq<OffenseView> {
    texts.map_values(|text: Seq<char>| OffenseView::FormatViolation { violation: text })
}

/// The times of commands that lie after `now`.
pub open spec fn future_times(commands: Seq<CommandView>, now: DateTime) -> Seq<DateTime>
    decreases commands.len(),
{
    if commands.len() == 0 {
        Seq::empty()
    } else {
        let before = future_times(commands.drop_last(), now);
        if is_later(commands.last().event_date, now) {
            before.push(commands.last().event_date)
        } else {
            before
        }
    }
}

/// The accusation that a time is not the expected one.
pub open spec fn anomaly(reported: DateTime, expected: DateTime, secs: int) -> OffenseView {
    OffenseView::TimestampAnomaly {
        reported_time: reported,
        expected_time: expected,
        time_difference_secs: secs as i64,
    }
}

/// What is said of a time in the future.
pub open spec fn future_text(reported: DateTime, now: DateTime) -> Seq<char> {
    "Future timestamp detected: "@ + decimal_int(whole_seconds(elapsed_nanos(reported, now)))
        + " seconds in the future"@
}

/// What validation of the format finds at the time `now`.
pub open spec fn format_check(commands: Seq<CommandView>, now: DateTime) -> ValidationView {
    if commands.len() == 0 {
        verdict(violations(seq!["Empty result set"@]), seq!["Empty result set"@])
    } else {
        let texts = gaps(ascending(indices(commands))) + repeats(indices(commands));
        let late = future_times(commands, now);
        verdict(
            violations(texts) + late.map_values(
                |t: DateTime| anomaly(t, now, whole_seconds(elapsed_nanos(t, now))),
            ),
            texts + late.map_values(|t: DateTime| future_text(t, now)),
        )
    }
}

proof fn lemma_placed(sorted: Seq<u32>, x: u32, v: u32)
    requires
        forall|i: int, j: int| 0 <= i <= j < sorted.len() ==> sorted[i] <= sorted[j],
    ensures
        placed(sorted, x).len() == sorted.len() + 1,
        forall|i: int, j: int|
            0 <= i <= j < placed(sorted, x).len() ==> #[trigger] placed(sorted, x)[i]
                <= #[trigger] placed(sorted, x)[j],
        forall|i: int|
            0 <= i < placed(sorted, x).len() ==> (#[trigger] placed(sorted, x)[i]) <= x || (
            sorted.len() > 0 && placed(sorted, x)[i] <= sorted.last()),
        count(placed(sorted, x), v) == count(sorted, v) + if x == v {
            1nat
        } else {
            0nat
        },
    decreases sorted.len(),
{
    if sorted.len() == 0 {
        assert(placed(sorted, x).drop_last() =~= sorted);
    } else if sorted.last() <= x {
        assert(sorted.push(x).drop_last() =~= sorted);
    } else {
        let inner = placed(sorted.drop_last(), x);
        lemma_placed(sorted.drop_last(), x, v);
        assert(inner.push(sorted.last()).drop_last() =~= inner);
    }
}

/// Sorting puts the numbers in ascending order and neither loses nor invents
/// one.
pub proof fn lemma_ascending(numbers: Seq<u32>, v: u32)
    ensures
        ascending(numbers).len() == numbers.len(),
        forall|i: int, j: int|
            0 <= i <= j < numbers.len() ==> #[trigger] ascending(numbers)[i]
                <= #[trigger] ascending(numbers)[j],
        count(ascending(numbers), v) == count(numbers, v),
    decreases numbers.len(),
{
    if numbers.len() > 0 {
        lemma_ascending(numbers.drop_last(), v);
        lemma_placed(ascending(numbers.drop_last()), numbers.last(), v);
    }
}

proof fn lemma_placed_at(sorted: Seq<u32>, x: u32, p: int)
    requires
        0 <= p <= sorted.len(),
        forall|i: int| p <= i < sorted.len() ==> sorted[i] > x,
        p > 0 ==> sorted[p - 1] <= x,
    ensures
        placed(sorted, x) == sorted.insert(p, x),
    decreases sorted.len(),
{
    if sorted.len() == 0 {
        assert(sorted.insert(p, x) =~= seq![x]);
    } else if p == sorted.len() {
        assert(sorted.insert(p, x) =~= sorted.push(x));
    } else {
        lemma_placed_at(sorted.drop_last(), x, p);
        assert(sorted.drop_last().insert(p, x).push(sorted.last()) =~= sorted.insert(p, x));
    }
}

proof fn lemma_gaps_none(sorted: Seq<u32>)
    requires
        sorted.len() <= 0x1_0000_0000,
    ensures
        gaps(sorted).len() == 0 <==> forall|i: int|
            0 <= i < sorted.len() ==> #[trigger] sorted[i] == i,
    decreases sorted.len(),
{
    if sorted.len() > 0 {
        let front = sorted.drop_last();
        let last = sorted.len() - 1;
        lemma_gaps_none(front);
        if gaps(sorted).len() == 0 {
            assert forall|i: int| 0 <= i < sorted.len() implies #[trigger] sorted[i] == i by {
                if i < last {
                    assert(front[i] == sorted[i]);
                }
            }
        }
        if forall|i: int| 0 <= i < sorted.len() ==> #[trigger] sorted[i] == i {
            assert forall|i: int| 0 <= i < front.len() implies #[trigger] front[i] == i by {
                assert(sorted[i] == front[i]);
            }
            assert(sorted[last] == last);
        }
    }
}

proof fn lemma_repeats_none(numbers: Seq<u32>)
    ensures
        repeats(numbers).len() == 0 <==> numbers.no_duplicates(),
    decreases numbers.len(),
{
    if numbers.len() > 0 {
        let front = numbers.drop_last();
        let last = numbers.len() - 1;
        lemma_repeats_none(front);
        if numbers.no_duplicates() {
            assert forall|i: int, j: int|
                0 <= i < front.len() && 0 <= j < front.len() && i != j implies front[i]
                != front[j] by {
                assert(numbers[i] != numbers[j]);
            }
            if front.contains(numbers.last()) {
                let i = choose|i: int| 0 <= i < front.len() && front[i] == numbers.last();
                assert(numbers[i] == numbers[last]);
            }
        }
        if repeats(numbers).len() == 0 {
            assert forall|i: int, j: int|
                0 <= i < numbers.len() && 0 <= j < numbers.len() && i != j implies numbers[i]
                != numbers[j] by {
                if i < last && j < last {
                    assert(front[i] != front[j]);
                } else if i == last {
                    assert(front[j] == numbers[j]);
                } else {
                    assert(front[i] == numbers[i]);
                }
            }
        }
    }
}

proof fn lemma_future_none(commands: Seq<CommandView>, now: DateTime)
    ensures
        future_times(commands, now).len() == 0 <==> forall|i: int|
            0 <= i < commands.len() ==> !is_later((#[trigger] commands[i]).event_date, now),
    decreases commands.len(),
{
    if commands.len() > 0 {
        let front = commands.drop_last();
        lemma_future_none(front, now);
        let last = commands.len() - 1;
        if future_times(commands, now).len() == 0 {
            assert forall|i: int| 0 <= i < commands.len() implies !is_later(
                (#[trigger] commands[i]).event_date,
                now,
            ) by {
                if i < last {
                    assert(front[i] == commands[i]);
                }
            }
        }
        if forall|i: int|
            0 <= i < commands.len() ==> !is_later((#[trigger] commands[i]).event_date, now) {
            assert forall|i: int| 0 <= i < front.len() implies !is_later(
                (#[trigger] front[i]).event_date,
                now,
            ) by {
                assert(commands[i] == front[i]);
            }
            assert(commands[last] == commands.last());
        }
    }
}

/// Two equal items at different places are counted twice.
proof fn lemma_count_twice(items: Seq<u32>, i: int, j: int)
    requires
        0 <= i < j < items.len(),
        items[i] == items[j],
    ensures
        count(items, items[i]) >= 2,
    decreases items.len(),
{
    let front = items.drop_last();
    if j < items.len() - 1 {
        lemma_count_twice(front, i, j);
    } else {
        lemma_count_bound(front, items[i]);
        assert(front[i] == items[i]);
        assert(front.contains(items[i]));
    }
}

proof fn lemma_count_once(items: Seq<u32>, v: u32)
    requires
        items.no_duplicates(),
    ensures
        count(items, v) <= 1,
    decreases items.len(),
{
    if items.len() > 0 {
        let front = items.drop_last();
        assert forall|i: int, j: int|
            0 <= i < front.len() && 0 <= j < front.len() && i != j implies front[i] != front[j] by {
            assert(items[i] != items[j]);
        }
        lemma_count_once(front, v);
        lemma_count_bound(front, v);
        if front.contains(v) {
            let i = choose|i: int| 0 <= i < front.len() && front[i] == v;
            assert(items[i] != items[items.len() - 1]);
        }
    }
}

/// Whether indices number the commands: each is below their number, and none
/// occurs twice.
pub open spec fn numbers_all(numbers: Seq<u32>) -> bool {
    &&& forall|i: int| 0 <= i < numbers.len() ==> #[trigger] numbers[i] < numbers.len()
    &&& numbers.no_duplicates()
}

proof fn lemma_numbered(numbers: Seq<u32>)
    requires
        numbers.len() <= 0x1_0000_0000,
    ensures
        gaps(ascending(numbers)).len() == 0 && repeats(numbers).len() == 0 <==> numbers_all(
            numbers,
        ),
{
    let sorted = ascending(numbers);
    lemma_ascending(numbers, 0);
    lemma_gaps_none(sorted);
    lemma_repeats_none(numbers);
    if gaps(sorted).len() == 0 {
        assert forall|i: int| 0 <= i < numbers.len() implies #[trigger] numbers[i]
            < numbers.len() by {
            lemma_ascending(numbers, numbers[i]);
            lemma_count_bound(numbers, numbers[i]);
            lemma_count_bound(sorted, numbers[i]);
            let j = choose|j: int| 0 <= j < sorted.len() && sorted[j] == numbers[i];
            assert(sorted[j] == j);
        }
    }
    if numbers_all(numbers) {
        let n = numbers.len();
        assert forall|i: int, j: int| 0 <= i < j < n implies sorted[i] < sorted[j] by {
            assert(sorted[i] <= sorted[j]);
            if sorted[i] == sorted[j] {
                lemma_count_twice(sorted, i, j);
                lemma_ascending(numbers, sorted[i]);
                lemma_count_once(numbers, sorted[i]);
            }
        }
        assert forall|i: int| 0 <= i < n implies #[trigger] sorted[i] < n by {
            lemma_ascending(numbers, sorted[i]);
            lemma_count_bound(sorted, sorted[i]);
            lemma_count_bound(numbers, sorted[i]);
            assert(sorted.contains(sorted[i]));
            let j = choose|j: int| 0 <= j < n && numbers[j] == sorted[i];
            assert(numbers[j] < n);
        }
        assert forall|i: int| 0 <= i < n implies #[trigger] sorted[i] == i by {
            lemma_strict(sorted, i);
        }
    }
}

proof fn lemma_strict(sorted: Seq<u32>, i: int)
    requires
        forall|a: int, b: int| 0 <= a < b < sorted.len() ==> sorted[a] < sorted[b],
        forall|a: int| 0 <= a < sorted.len() ==> #[trigger] sorted[a] < sorted.len(),
        0 <= i < sorted.len(),
    ensures
        sorted[i] == i,
{
    lemma_strict_low(sorted, i);
    lemma_strict_high(sorted, i);
}

proof fn lemma_strict_low(sorted: Seq<u32>, i: int)
    requires
        forall|a: int, b: int| 0 <= a < b < sorted.len() ==> sorted[a] < sorted[b],
        0 <= i < sorted.len(),
    ensures
        sorted[i] >= i,
    decreases i,
{
    if i > 0 {
        lemma_strict_low(sorted, i - 1);
        assert(sorted[i - 1] < sorted[i]);
    }
}

proof fn lemma_strict_high(sorted: Seq<u32>, i: int)
    requires
        forall|a: int, b: int| 0 <= a < b < sorted.len() ==> sorted[a] < sorted[b],
        forall|a: int| 0 <= a < sorted.len() ==> #[trigger] sorted[a] < sorted.len(),
        0 <= i < sorted.len(),
    ensures
        sorted[i] <= i,
    decreases sorted.len() - i,
{
    if i < sorted.len() - 1 {
        lemma_strict_high(sorted, i + 1);
        assert(sorted[i] < sorted[i + 1]);
    }
}

/// More numbers than there are of 32 bits cannot all differ.
proof fn lemma_too_many(numbers: Seq<u32>)
    requires
        numbers.no_duplicates(),
    ensures
        numbers.len() <= 0x1_0000_0000,
{
    let wide = numbers.map_values(|x: u32| x as int);
    assert(wide.no_duplicates()) by {
        assert forall|i: int, j: int|
            0 <= i < wide.len() && 0 <= j < wide.len() && i != j implies wide[i] != wide[j] by {
            assert(numbers[i] != numbers[j]);
        }
    }
    wide.unique_seq_to_set();
    vstd::set_lib::lemma_int_range(0, 0x1_0000_0000);
    let all = vstd::set_lib::set_int_range(0, 0x1_0000_0000);
    assert forall|x: int| #[trigger] wide.to_set().contains(x) implies all.contains(x) by {
        let i = choose|i: int| 0 <= i < wide.len() && wide[i] == x;
        assert(wide[i] == numbers[i]);
    }
    vstd::set_lib::lemma_len_subset(wide.to_set(), all);
}

/// The format is valid exactly where there are commands, their indices number
/// them from zero without gap or repetition, and none lies in the future.
pub proof fn law_valid_format(commands: Seq<CommandView>, now: DateTime)
    ensures
        format_check(commands, now).is_valid <==> {
            &&& commands.len() > 0
            &&& numbers_all(indices(commands))
            &&& forall|i: int|
                0 <= i < commands.len() ==> !is_later((#[trigger] commands[i]).event_date, now)
        },
{
    if commands.len() <= 0x1_0000_0000 {
        lemma_numbered(indices(commands));
    } else {
        lemma_repeats_none(indices(commands));
        if indices(commands).no_duplicates() {
            lemma_too_many(indices(commands));
        }
    }
    lemma_future_none(commands, now);
}

// ---------------------------------------------------------------- usage

/// Whether a reported number is further from the expected one than a share of
/// it.
pub open spec fn exceeds(reported: Decimal, expected: Decimal, tolerance: Decimal) -> bool {
    if expected.micros > 0 {
        distance(reported.micros as int, expected.micros as int) * 1_000_000 > tolerance.micros
            * expected.micros
    } else if reported.micros > 0 {
        true
    } else {
        0 > tolerance.micros
    }
}

/// The reported usage in relation to the expected one.
pub open spec fn inflation(reported: Decimal, expected: Decimal) -> Ratio {
    if expected.micros > 0 {
        Ratio::Finite(
            Decimal {
                micros: saturated(
                    quotient_micros(reported.micros as int, expected.micros as int),
                ) as i64,
            },
        )
    } else {
        Ratio::Infinite
    }
}

/// What is said of a usage that differs too much.
pub open spec fn usage_text(resource: Seq<char>, reported: Decimal, expected: Decimal) -> Seq<
    char,
> {
    "Resource inflation detected for "@ + resource + ": reported "@ + micros_text(
        reported.micros as int,
    ) + ", expected "@ + micros_text(expected.micros as int) + ", ratio: "@
        + if expected.micros > 0 {
        rounded_text(reported.micros as int, expected.micros as nat, 2)
    } else {
        "inf"@
    }
}

/// The offenses in the reported usage.
pub open spec fn usage_offenses(
    reported: Seq<(Seq<char>, Decimal)>,
    consensus: Seq<(Seq<char>, Decimal)>,
    tolerance: Decimal,
) -> Seq<OffenseView>
    decreases reported.len(),
{
    if reported.len() == 0 {
        Seq::empty()
    } else {
        let before = usage_offenses(reported.drop_last(), consensus, tolerance);
        let (resource, usage) = reported.last();
        match lookup(consensus, resource) {
            Some(expected) if exceeds(usage, expected, tolerance) => before.push(
                OffenseView::ResourceInflation {
                    resource_type: resource,
                    reported_usage: usage,
                    expected_usage: expected,
                    inflation_ratio: inflation(usage, expected),
                },
            ),
            _ => before,
        }
    }
}

/// The errors in the reported usage.
pub open spec fn usage_errors(
    reported: Seq<(Seq<char>, Decimal)>,
    consensus: Seq<(Seq<char>, Decimal)>,
    tolerance: Decimal,
) -> Seq<Seq<char>>
    decreases reported.len(),
{
    if reported.len() == 0 {
        Seq::empty()
    } else {
        let before = usage_errors(reported.drop_last(), consensus, tolerance);
        let (resource, usage) = reported.last();
        match lookup(consensus, resource) {
            Some(expected) => if exceeds(usage, expected, tolerance) {
                before.push(usage_text(resource, usage, expected))
            } else {
                before
            },
            None => before.push("Unknown resource type in usage: "@ + resource),
        }
    }
}

/// What validation of the resource usage finds.
pub open spec fn usage_check(
    reported: Seq<(Seq<char>, Decimal)>,
    consensus: Seq<(Seq<char>, Decimal)>,
    tolerance: Decimal,
) -> ValidationView {
    verdict(
        usage_offenses(reported, consensus, tolerance),
        usage_errors(reported, consensus, tolerance),
    )
}

// ---------------------------------------------------------------- cost

/// What is said of a cost that differs too much.
pub open spec fn cost_text(reported: Decimal, consensus: Decimal) -> Seq<char> {
    let difference = distance(reported.micros as int, consensus.micros as int);
    "Cost fraud detected: reported "@ + micros_text(reported.micros as int) + ", expected "@
        + micros_text(consensus.micros as int) + ", difference: "@ + rounded_text(
        difference,
        1_000_000,
        6,
    ) + ", ratio: "@ + (if consensus.micros > 0 {
        rounded_text(difference * 100, consensus.micros as nat, 2)
    } else if reported.micros > 0 {
        "inf"@
    } else {
        "0.00"@
    }) + "%"@
}

/// What validation of the cost finds.
pub open spec fn cost_check(reported: Decimal, consensus: Decimal, tolerance: Decimal) -> ValidationView {
    if exceeds(reported, consensus, tolerance) {
        verdict(
            seq![
                OffenseView::CostFraud {
                    reported_cost: reported,
                    expected_cost: consensus,
                    cost_difference: Quantity {
                        micros: distance(reported.micros as int, consensus.micros as int) as u64,
                    },
                },
            ],
            seq![cost_text(reported, consensus)],
        )
    } else {
        verdict(Seq::empty(), Seq::empty())
    }
}

// ---------------------------------------------------------------- times

/// How many whole seconds lie between two instants.
pub open spec fn seconds_apart(a: DateTime, b: DateTime) -> int {
    distance(whole_seconds(elapsed_nanos(a, b)), 0)
}

/// The times that are too far from the consensus.
pub open spec fn strays(times: Seq<DateTime>, consensus: DateTime, max_secs: int) -> Seq<DateTime>
    decreases times.len(),
{
    if times.len() == 0 {
        Seq::empty()
    } else {
        let before = strays(times.drop_last(), consensus, max_secs);
        if seconds_apart(times.last(), consensus) > max_secs {
            before.push(times.last())
        } else {
            before
        }
    }
}

/// What is said of a time that is too far from the consensus.
pub open spec fn stray_text(time: DateTime, consensus: DateTime, max_secs: int) -> Seq<char> {
    "Timestamp anomaly: "@ + decimal_int(seconds_apart(time, consensus))
        + " seconds difference (max allowed: "@ + decimal_int(max_secs) + ")"@
}

/// What validation of the times finds.
pub open spec fn time_check(times: Seq<DateTime>, consensus: DateTime, max_secs: int) -> ValidationView {
    let found = strays(times, consensus, max_secs);
    verdict(
        found.map_values(|t: DateTime| anomaly(t, consensus, seconds_apart(t, consensus))),
        found.map_values(|t: DateTime| stray_text(t, consensus, max_secs)),
    )
}

// ---------------------------------------------------------------- all

/// The times of the commands.
pub open spec fn event_dates(commands: Seq<CommandView>) -> Seq<DateTime> {
    commands.map_values(|c: CommandView| c.event_date)
}

/// Two findings, one after the other.
pub open spec fn joined(a: ValidationView, b: ValidationView) -> ValidationView {
    verdict(a.offenses + b.offenses, a.errors + b.errors)
}

/// Findings without offenses or errors.
pub open spec fn nothing() -> ValidationView {
    verdict(Seq::empty(), Seq::empty())
}

/// Several offenses are reported as one.
pub open spec fn combined(offenses: Seq<OffenseView>) -> Seq<OffenseView> {
    if offenses.len() <= 1 {
        offenses
    } else {
        seq![OffenseView::Multiple(offenses)]
    }
}

/// What all checks together find at the time `now`.
pub open spec fn comprehensive_check(
    validator: ResultValidator,
    commands: Seq<CommandView>,
    consensus_commands: Seq<CommandView>,
    reported_usage: Option<Seq<(Seq<char>, Decimal)>>,
    consensus_usage: Option<Seq<(Seq<char>, Decimal)>>,
    reported_cost: Option<Decimal>,
    consensus_cost: Option<Decimal>,
    now: DateTime,
) -> ValidationView {
    let usage = match (reported_usage, consensus_usage) {
        (Some(reported), Some(consensus)) => usage_check(
            reported,
            consensus,
            validator.resource_tolerance,
        ),
        _ => nothing(),
    };
    let cost = match (reported_cost, consensus_cost) {
        (Some(reported), Some(consensus)) => cost_check(
            reported,
            consensus,
            validator.cost_tolerance,
        ),
        _ => nothing(),
    };
    let times = if consensus_commands.len() > 0 {
        time_check(
            event_dates(commands),
            consensus_commands[0].event_date,
            validator.max_timestamp_diff_secs as int,
        )
    } else {
        nothing()
    };
    let all = joined(joined(joined(format_check(commands, now), usage), cost), times);
    ValidationView {
        is_valid: all.is_valid,
        offenses: combined(all.offenses),
        errors: all.errors,
    }
}

/// A comprehensive validation is valid exactly where it names no offense, and
/// it names at most one.
pub proof fn law_valid_means_no_offense(
    validator: ResultValidator,
    commands: Seq<CommandView>,
    consensus_commands: Seq<CommandView>,
    reported_usage: Option<Seq<(Seq<char>, Decimal)>>,
    consensus_usage: Option<Seq<(Seq<char>, Decimal)>>,
    reported_cost: Option<Decimal>,
    consensus_cost: Option<Decimal>,
    now: DateTime,
)
    ensures
        ({
            let found = comprehensive_check(
                validator,
                commands,
                consensus_commands,
                reported_usage,
                consensus_usage,
                reported_cost,
                consensus_cost,
                now,
            );
            &&& found.is_valid <==> found.offenses.len() == 0
            &&& found.offenses.len() <= 1
        }),
{
}

/// A report that equals the consensus is never an offense.
pub proof fn law_equal_report_is_in_tolerance(value: Decimal, tolerance: Decimal)
    requires
        tolerance.micros >= 0,
    ensures
        !exceeds(value, value, tolerance),
        cost_check(value, value, tolerance).is_valid,
{
    if value.micros > 0 {
        assert(0 <= tolerance.micros * value.micros) by (nonlinear_arith)
            requires
                tolerance.micros >= 0,
                value.micros > 0,
        ;
    }
}

// ---------------------------------------------------------------- validator

/// Validates the results of providers.
#[derive(Clone, Copy, Debug)]
pub struct ResultValidator {
    /// The share by which a usage may differ: 0.1 is ten per cent.
    pub resource_tolerance: Decimal,
    /// The share by which a cost may differ: 0.05 is five per cent.
    pub cost_tolerance: Decimal,
    /// The seconds by which a time may differ.
    pub max_timestamp_diff_secs: i64,
}

impl Default for ResultValidator {
    fn default() -> (validator: Self)
        ensures
            validator.resource_tolerance.micros == 100_000,
            validator.cost_tolerance.micros == 50_000,
            validator.max_timestamp_diff_secs == 300,
    {
        ResultValidator {
            resource_tolerance: Decimal { micros: 100_000 },
            cost_tolerance: Decimal { micros: 50_000 },
            max_timestamp_diff_secs: 300,
        }
    }
}

fn sort_ascending(numbers: &Vec<u32>) -> (sorted: Vec<u32>)
    ensures
        sorted@ == ascending(numbers@),
{
    let mut sorted: Vec<u32> = Vec::new();
    let mut i: usize = 0;
    while i < numbers.len()
        invariant
            i <= numbers.len(),
            sorted@.len() == i,
            sorted@ == ascending(numbers@.take(i as int)),
        decreases numbers.len() - i,
    {
        let x: u32 = numbers[i];
        let mut p: usize = sorted.len();
        while p > 0 && sorted[p - 1] > x
            invariant
                p <= sorted@.len(),
                forall|j: int| p <= j < sorted@.len() ==> sorted@[j] > x,
            decreases p,
        {
            p -= 1;
        }
        proof {
            lemma_placed_at(sorted@, x, p as int);
            assert(numbers@.take(i + 1).drop_last() =~= numbers@.take(i as int));
        }
        sorted.insert(p, x);
        i += 1;
    }
    assert(numbers@.take(i as int) =~= numbers@);
    sorted
}

/// Offenses and errors as they are collected.
struct Findings {
    offenses: Vec<OffenseType>,
    errors: Vec<String>,
}

impl Findings {
    spec fn holds(&self, offenses: Seq<OffenseView>, errors: Seq<Seq<char>>) -> bool {
        views(self.offenses@) == offenses && views(self.errors@) == errors
    }

    fn new() -> (found: Findings)
        ensures
            found.holds(Seq::empty(), Seq::empty()),
    {
        let found = Findings { offenses: Vec::new(), errors: Vec::new() };
        assert(views(found.offenses@) =~= Seq::<OffenseView>::empty());
        assert(views(found.errors@) =~= Seq::<Seq<char>>::empty());
        found
    }

    fn accuse(&mut self, offense: OffenseType)
        ensures
            final(self).holds(
                views(old(self).offenses@).push(offense@),
                views(old(self).errors@),
            ),
    {
        self.offenses.push(offense);
        assert(views(self.offenses@) =~= views(old(self).offenses@).push(offense@));
    }

    fn note(&mut self, error: String)
        ensures
            final(self).holds(views(old(self).offenses@), views(old(self).errors@).push(error@)),
    {
        self.errors.push(error);
        assert(views(self.errors@) =~= views(old(self).errors@).push(error@));
    }

    fn violation(&mut self, text: String)
        ensures
            final(self).holds(
                views(old(self).offenses@).push(OffenseView::FormatViolation { violation: text@ }),
                views(old(self).errors@).push(text@),
            ),
    {
        self.note(text.clone());
        self.accuse(OffenseType::FormatViolation { violation: text });
    }

    fn take_over(&mut self, other: ValidationResult)
        ensures
            final(self).holds(
                views(old(self).offenses@) + other@.offenses,
                views(old(self).errors@) + other@.errors,
            ),
    {
        let ghost added = other@;
        let mut other = other;
        self.offenses.append(&mut other.offenses);
        self.errors.append(&mut other.errors);
        assert(views(self.offenses@) =~= views(old(self).offenses@) + added.offenses);
        assert(views(self.errors@) =~= views(old(self).errors@) + added.errors);
    }

    fn conclude(self) -> (result: ValidationResult)
        ensures
            result@ == verdict(views(self.offenses@), views(self.errors@)),
    {
        ValidationResult {
            is_valid: self.offenses.len() == 0,
            offenses: self.offenses,
            errors: self.errors,
        }
    }
}

fn find_gaps(found: &mut Findings, sorted: &Vec<u32>)
    ensures
        final(found).holds(
            views(old(found).offenses@) + violations(gaps(sorted@)),
            views(old(found).errors@) + gaps(sorted@),
        ),
{
    let ghost o = views(found.offenses@);
    let ghost e = views(found.errors@);
    assert(o + violations(gaps(sorted@.take(0))) =~= o);
    assert(e + gaps(sorted@.take(0)) =~= e);
    let mut i: usize = 0;
    while i < sorted.len()
        invariant
            i <= sorted.len(),
            found.holds(
                o + violations(gaps(sorted@.take(i as int))),
                e + gaps(sorted@.take(i as int)),
            ),
        decreases sorted.len() - i,
    {
        let ghost next = sorted@.take(i + 1);
        let ghost before = gaps(sorted@.take(i as int));
        assert(next.drop_last() =~= sorted@.take(i as int));
        if sorted[i] != i as u32 {
            let mut text = "Index discontinuity: expected ".to_string();
            push_decimal(&mut text, i as u128);
            text.append(", got ");
            push_decimal(&mut text, sorted[i] as u128);
            let ghost said = text@;
            found.violation(text);
            assert(gaps(next) == before.push(said));
            assert(o + violations(before.push(said)) =~= (o + violations(before)).push(
                OffenseView::FormatViolation { violation: said },
            ));
            assert(e + before.push(said) =~= (e + before).push(said));
        }
        i += 1;
    }
    assert(sorted@.take(i as int) =~= sorted@);
}

fn find_repeats(found: &mut Findings, numbers: &Vec<u32>)
    ensures
        final(found).holds(
            views(old(found).offenses@) + violations(repeats(numbers@)),
            views(old(found).errors@) + repeats(numbers@),
        ),
{
    broadcast use vstd::std_specs::hash::group_hash_axioms;

    let ghost o = views(found.offenses@);
    let ghost e = views(found.errors@);
    assert(o + violations(repeats(numbers@.take(0))) =~= o);
    assert(e + repeats(numbers@.take(0)) =~= e);
    let mut seen: HashSet<u32> = HashSet::new();
    let mut i: usize = 0;
    while i < numbers.len()
        invariant
            i <= numbers.len(),
            forall|x: u32| #[trigger] seen@.contains(x) <==> numbers@.take(i as int).contains(x),
            found.holds(
                o + violations(repeats(numbers@.take(i as int))),
                e + repeats(numbers@.take(i as int)),
            ),
        decreases numbers.len() - i,
    {
        broadcast use vstd::std_specs::hash::group_hash_axioms;

        let ghost now = numbers@.take(i as int);
        let ghost next = numbers@.take(i + 1);
        let ghost before = repeats(now);
        assert(next.drop_last() =~= now);
        let x: u32 = numbers[i];
        let fresh = seen.insert(x);
        assert forall|y: u32| #[trigger] seen@.contains(y) <==> next.contains(y) by {
            if next.contains(y) {
                let j = choose|j: int| 0 <= j < next.len() && next[j] == y;
                if j < i {
                    assert(now[j] == y);
                }
            }
            if now.contains(y) {
                let j = choose|j: int| 0 <= j < now.len() && now[j] == y;
                assert(next[j] == y);
            }
            assert(next[i as int] == x);
        }
        if !fresh {
            let mut text = "Duplicate index: ".to_string();
            push_decimal(&mut text, x as u128);
            let ghost said = text@;
            found.violation(text);
            assert(repeats(next) == before.push(said));
            assert(o + violations(before.push(said)) =~= (o + violations(before)).push(
                OffenseView::FormatViolation { violation: said },
            ));
            assert(e + before.push(said) =~= (e + before).push(said));
        }
        i += 1;
    }
    assert(numbers@.take(i as int) =~= numbers@);
}

fn find_future(found: &mut Findings, results: &[ExeScriptCommandResult], now: &DateTime)
    ensures
        final(found).holds(
            views(old(found).offenses@) + future_times(views(results@), *now).map_values(
                |t: DateTime| anomaly(t, *now, whole_seconds(elapsed_nanos(t, *now))),
            ),
            views(old(found).errors@) + future_times(views(results@), *now).map_values(
                |t: DateTime| future_text(t, *now),
            ),
        ),
{
    let ghost o = views(found.offenses@);
    let ghost e = views(found.errors@);
    let ghost all = views(results@);
    let ghost to_offense = |t: DateTime| anomaly(t, *now, whole_seconds(elapsed_nanos(t, *now)));
    let ghost to_error = |t: DateTime| future_text(t, *now);
    assert(o + future_times(all.take(0), *now).map_values(to_offense) =~= o);
    assert(e + future_times(all.take(0), *now).map_values(to_error) =~= e);
    let mut i: usize = 0;
    while i < results.len()
        invariant
            i <= results.len(),
            all == views(results@),
            to_offense == (|t: DateTime|
                anomaly(t, *now, whole_seconds(elapsed_nanos(t, *now)))),
            to_error == (|t: DateTime| future_text(t, *now)),
            found.holds(
                o + future_times(all.take(i as int), *now).map_values(to_offense),
                e + future_times(all.take(i as int), *now).map_values(to_error),
            ),
        decreases results.len() - i,
    {
        let ghost next = all.take(i + 1);
        let ghost before = future_times(all.take(i as int), *now);
        assert(next.drop_last() =~= all.take(i as int));
        assert(next.last() == results@[i as int]@);
        let date = results[i].event_date;
        if date.is_after(now) {
            let secs: i64 = date.seconds_since(now);
            found.accuse(
                OffenseType::TimestampAnomaly {
                    reported_time: date,
                    expected_time: *now,
                    time_difference_secs: secs,
                },
            );
            let mut text = "Future timestamp detected: ".to_string();
            push_decimal_int(&mut text, secs as i128);
            text.append(" seconds in the future");
            found.note(text);
            assert(future_times(next, *now) == before.push(date));
            assert(o + before.push(date).map_values(to_offense) =~= (o + before.map_values(
                to_offense,
            )).push(to_offense(date)));
            assert(e + before.push(date).map_values(to_error) =~= (e + before.map_values(
                to_error,
            )).push(to_error(date)));
        }
        i += 1;
    }
    assert(all.take(i as int) =~= all);
}

fn exceeds_tolerance(reported: Decimal, expected: Decimal, tolerance: Decimal) -> (too_far: bool)
    ensures
        too_far == exceeds(reported, expected, tolerance),
{
    if expected.micros > 0 {
        let apart: i128 = distance_micros(reported, expected) as i128;
        let t: i128 = tolerance.micros as i128;
        let x: i128 = expected.micros as i128;
        assert(-0x8000_0000_0000_0000 * 0x8000_0000_0000_0000 <= t * x <= 0x8000_0000_0000_0000
            * 0x8000_0000_0000_0000) by (nonlinear_arith)
            requires
                -0x8000_0000_0000_0000 <= t <= 0x8000_0000_0000_0000,
                0 < x <= 0x8000_0000_0000_0000,
        ;
        apart * 1_000_000 > t * x
    } else if reported.micros > 0 {
        true
    } else {
        0 > tolerance.micros
    }
}

fn usage_message(resource: &String, reported: Decimal, expected: Decimal) -> (text: String)
    ensures
        text@ == usage_text(resource@, reported, expected),
{
    let mut text = "Resource inflation detected for ".to_string();
    text.append(resource.as_str());
    text.append(": reported ");
    push_decimal_number(&mut text, reported);
    text.append(", expected ");
    push_decimal_number(&mut text, expected);
    text.append(", ratio: ");
    if expected.micros > 0 {
        push_rounded(&mut text, reported.micros as i128, expected.micros as u128, 2);
    } else {
        text.append("inf");
    }
    text
}

fn cost_message(reported: Decimal, consensus: Decimal, difference: u128) -> (text: String)
    requires
        difference == distance(reported.micros as int, consensus.micros as int),
        difference <= u64::MAX,
    ensures
        text@ == cost_text(reported, consensus),
{
    let mut text = "Cost fraud detected: reported ".to_string();
    push_decimal_number(&mut text, reported);
    text.append(", expected ");
    push_decimal_number(&mut text, consensus);
    text.append(", difference: ");
    push_rounded(&mut text, difference as i128, 1_000_000, 6);
    text.append(", ratio: ");
    if consensus.micros > 0 {
        push_rounded(&mut text, difference as i128 * 100, consensus.micros as u128, 2);
    } else if reported.micros > 0 {
        text.append("inf");
    } else {
        text.append("0.00");
    }
    text.append("%");
    text
}

impl ResultValidator {
    /// A validator with the given tolerances.
    pub fn new(
        resource_tolerance: Decimal,
        cost_tolerance: Decimal,
        max_timestamp_diff_secs: i64,
    ) -> (validator: Self)
        ensures
            validator.resource_tolerance == resource_tolerance,
            validator.cost_tolerance == cost_tolerance,
            validator.max_timestamp_diff_secs == max_timestamp_diff_secs,
    {
        ResultValidator { resource_tolerance, cost_tolerance, max_timestamp_diff_secs }
    }

    /// Validates the format and completeness of results at the current time.
    pub fn validate_format(&self, results: &[ExeScriptCommandResult]) -> (found: ValidationResult)
        ensures
            exists|now: DateTime| found@ == #[trigger] format_check(views(results@), now),
    {
        let now = utc_now();
        self.validate_format_at(results, now)
    }

    /// Validates the format and completeness of results at the time `now`.
    pub fn validate_format_at(
        &self,
        results: &[ExeScriptCommandResult],
        now: DateTime,
    ) -> (found: ValidationResult)
        ensures
            found@ == format_check(views(results@), now),
    {
        let mut found = Findings::new();
        if results.len() == 0 {
            found.violation("Empty result set".to_string());
            assert(views(found.offenses@) =~= violations(seq!["Empty result set"@]));
            assert(views(found.errors@) =~= seq!["Empty result set"@]);
            return found.conclude();
        }
        let ghost all = views(results@);
        let mut numbers: Vec<u32> = Vec::new();
        let mut i: usize = 0;
        while i < results.len()
            invariant
                i <= results.len(),
                all == views(results@),
                numbers@ == indices(all).take(i as int),
            decreases results.len() - i,
        {
            numbers.push(results[i].index);
            assert(numbers@ =~= indices(all).take(i + 1));
            i += 1;
        }
        assert(numbers@ =~= indices(all));
        let sorted = sort_ascending(&numbers);
        let ghost first = gaps(sorted@);
        let ghost second = repeats(numbers@);
        find_gaps(&mut found, &sorted);
        find_repeats(&mut found, &numbers);
        proof {
            assert(views(found.offenses@) =~= violations(first + second));
            assert(views(found.errors@) =~= first + second);
        }
        find_future(&mut found, results, &now);
        found.conclude()
    }

    /// Validates the reported resource usage against the consensus.
    pub fn validate_resource_usage(
        &self,
        reported_usage: &OrderedMap<String, Decimal>,
        consensus_usage: &OrderedMap<String, Decimal>,
    ) -> (found: ValidationResult)
        ensures
            found@ == usage_check(reported_usage@, consensus_usage@, self.resource_tolerance),
    {
        let tolerance = self.resource_tolerance;
        let mut found = Findings::new();
        let mut i: usize = 0;
        while i < reported_usage.len()
            invariant
                i <= reported_usage@.len(),
                found.holds(
                    usage_offenses(reported_usage@.take(i as int), consensus_usage@, tolerance),
                    usage_errors(reported_usage@.take(i as int), consensus_usage@, tolerance),
                ),
            decreases reported_usage@.len() - i,
        {
            assert(reported_usage@.take(i + 1).drop_last() =~= reported_usage@.take(i as int));
            let resource = reported_usage.key_at(i);
            let reported = *reported_usage.value_at(i);
            match consensus_usage.get(resource) {
                Some(known) => {
                    let expected = *known;
                    if exceeds_tolerance(reported, expected, tolerance) {
                        let inflation_ratio = if expected.micros > 0 {
                            Ratio::Finite(quotient(reported, expected))
                        } else {
                            Ratio::Infinite
                        };
                        found.accuse(
                            OffenseType::ResourceInflation {
                                resource_type: resource.clone(),
                                reported_usage: reported,
                                expected_usage: expected,
                                inflation_ratio,
                            },
                        );
                        found.note(usage_message(resource, reported, expected));
                    }
                },
                None => {
                    let mut text = "Unknown resource type in usage: ".to_string();
                    text.append(resource.as_str());
                    found.note(text);
                },
            }
            i += 1;
        }
        assert(reported_usage@.take(i as int) =~= reported_usage@);
        found.conclude()
    }

    /// Validates the reported cost against the consensus.
    pub fn validate_cost(&self, reported_cost: Decimal, consensus_cost: Decimal) -> (found:
        ValidationResult)
        ensures
            found@ == cost_check(reported_cost, consensus_cost, self.cost_tolerance),
    {
        let mut found = Findings::new();
        let difference: u128 = distance_micros(reported_cost, consensus_cost);
        if exceeds_tolerance(reported_cost, consensus_cost, self.cost_tolerance) {
            found.accuse(
                OffenseType::CostFraud {
                    reported_cost,
                    expected_cost: consensus_cost,
                    cost_difference: Quantity { micros: difference as u64 },
                },
            );
            found.note(cost_message(reported_cost, consensus_cost, difference));
            proof {
                let expected = cost_check(reported_cost, consensus_cost, self.cost_tolerance);
                assert(views(found.offenses@) =~= expected.offenses);
                assert(views(found.errors@) =~= expected.errors);
            }
        }
        found.conclude()
    }

    /// Validates reported times against the consensus.
    pub fn validate_timestamps(
        &self,
        reported_timestamps: &[DateTime],
        consensus_timestamp: DateTime,
    ) -> (found: ValidationResult)
        ensures
            found@ == time_check(
                reported_timestamps@,
                consensus_timestamp,
                self.max_timestamp_diff_secs as int,
            ),
    {
        let max_secs: i64 = self.max_timestamp_diff_secs;
        let ghost times = reported_timestamps@;
        let ghost to_offense = |t: DateTime|
            anomaly(t, consensus_timestamp, seconds_apart(t, consensus_timestamp));
        let ghost to_error = |t: DateTime| stray_text(t, consensus_timestamp, max_secs as int);
        let mut found = Findings::new();
        assert(strays(times.take(0), consensus_timestamp, max_secs as int).map_values(to_offense)
            =~= Seq::<OffenseView>::empty());
        assert(strays(times.take(0), consensus_timestamp, max_secs as int).map_values(to_error)
            =~= Seq::<Seq<char>>::empty());
        let mut i: usize = 0;
        while i < reported_timestamps.len()
            invariant
                i <= reported_timestamps.len(),
                times == reported_timestamps@,
                to_offense == (|t: DateTime|
                    anomaly(t, consensus_timestamp, seconds_apart(t, consensus_timestamp))),
                to_error == (|t: DateTime| stray_text(t, consensus_timestamp, max_secs as int)),
                found.holds(
                    strays(times.take(i as int), consensus_timestamp, max_secs as int).map_values(
                        to_offense,
                    ),
                    strays(times.take(i as int), consensus_timestamp, max_secs as int).map_values(
                        to_error,
                    ),
                ),
            decreases reported_timestamps.len() - i,
        {
            let ghost next = times.take(i + 1);
            let ghost before = strays(times.take(i as int), consensus_timestamp, max_secs as int);
            assert(next.drop_last() =~= times.take(i as int));
            let time = reported_timestamps[i];
            let secs: i64 = time.seconds_since(&consensus_timestamp);
            let apart: i64 = if secs < 0 {
                -secs
            } else {
                secs
            };
            assert(apart == seconds_apart(time, consensus_timestamp));
            if apart > max_secs {
                found.accuse(
                    OffenseType::TimestampAnomaly {
                        reported_time: time,
                        expected_time: consensus_timestamp,
                        time_difference_secs: apart,
                    },
                );
                let mut text = "Timestamp anomaly: ".to_string();
                push_decimal_int(&mut text, apart as i128);
                text.append(" seconds difference (max allowed: ");
                push_decimal_int(&mut text, max_secs as i128);
                text.append(")");
                found.note(text);
                assert(before.push(time).map_values(to_offense) =~= before.map_values(
                    to_offense,
                ).push(to_offense(time)));
                assert(before.push(time).map_values(to_error) =~= before.map_values(
                    to_error,
                ).push(to_error(time)));
            }
            i += 1;
        }
        assert(times.take(i as int) =~= times);
        found.conclude()
    }

    /// Runs all checks at the current time.
    pub fn validate_comprehensive(
        &self,
        results: &[ExeScriptCommandResult],
        consensus_results: &[ExeScriptCommandResult],
        reported_usage: Option<&OrderedMap<String, Decimal>>,
        consensus_usage: Option<&OrderedMap<String, Decimal>>,
        reported_cost: Option<Decimal>,
        consensus_cost: Option<Decimal>,
    ) -> (found: ValidationResult)
        ensures
            exists|now: DateTime|
                found@ == #[trigger] comprehensive_check(
                    *self,
                    views(results@),
                    views(consensus_results@),
                    view_opt(reported_usage),
                    view_opt(consensus_usage),
                    reported_cost,
                    consensus_cost,
                    now,
                ),
    {
        let now = utc_now();
        self.validate_comprehensive_at(
            results,
            consensus_results,
            reported_usage,
            consensus_usage,
            reported_cost,
            consensus_cost,
            now,
        )
    }

    /// Runs all checks at the time `now`.
    pub fn validate_comprehensive_at(
        &self,
        results: &[ExeScriptCommandResult],
        consensus_results: &[ExeScriptCommandResult],
        reported_usage: Option<&OrderedMap<String, Decimal>>,
        consensus_usage: Option<&OrderedMap<String, Decimal>>,
        reported_cost: Option<Decimal>,
        consensus_cost: Option<Decimal>,
        now: DateTime,
    ) -> (found: ValidationResult)
        ensures
            found@ == comprehensive_check(
                *self,
                views(results@),
                views(consensus_results@),
                view_opt(reported_usage),
                view_opt(consensus_usage),
                reported_cost,
                consensus_cost,
                now,
            ),
    {
        let mut all = Findings::new();
        let format = self.validate_format_at(results, now);
        let ghost f = format@;
        all.take_over(format);
        assert(all.holds(f.offenses, f.errors)) by {
            assert(Seq::<OffenseView>::empty() + f.offenses =~= f.offenses);
            assert(Seq::<Seq<char>>::empty() + f.errors =~= f.errors);
        }
        let ghost mut u = nothing();
        if let (Some(reported), Some(consensus)) = (reported_usage, consensus_usage) {
            let usage = self.validate_resource_usage(reported, consensus);
            proof {
                u = usage@;
            }
            all.take_over(usage);
        }
        assert(all.holds(f.offenses + u.offenses, f.errors + u.errors)) by {
            assert(f.offenses + Seq::<OffenseView>::empty() =~= f.offenses);
            assert(f.errors + Seq::<Seq<char>>::empty() =~= f.errors);
        }
        let ghost fu = joined(f, u);
        let ghost mut c = nothing();
        if let (Some(reported), Some(consensus)) = (reported_cost, consensus_cost) {
            let cost = self.validate_cost(reported, consensus);
            proof {
                c = cost@;
            }
            all.take_over(cost);
        }
        assert(all.holds(fu.offenses + c.offenses, fu.errors + c.errors)) by {
            assert(fu.offenses + Seq::<OffenseView>::empty() =~= fu.offenses);
            assert(fu.errors + Seq::<Seq<char>>::empty() =~= fu.errors);
        }
        let ghost fuc = joined(fu, c);
        let ghost mut t = nothing();
        if consensus_results.len() > 0 {
            let times = event_dates_of(results);
            let timing = self.validate_timestamps(
                times.as_slice(),
                consensus_results[0].event_date,
            );
            proof {
                t = timing@;
            }
            all.take_over(timing);
        }
        assert(all.holds(fuc.offenses + t.offenses, fuc.errors + t.errors)) by {
            assert(fuc.offenses + Seq::<OffenseView>::empty() =~= fuc.offenses);
            assert(fuc.errors + Seq::<Seq<char>>::empty() =~= fuc.errors);
        }
        let all = all.conclude();
        let ghost together = joined(fuc, t);
        assert(all@ == together);
        if all.offenses.len() <= 1 {
            all
        } else {
            let is_valid = all.is_valid;
            let multiple = OffenseType::Multiple(all.offenses);
            let ghost whole = multiple@;
            assert(whole->Multiple_0 =~= together.offenses);
            let mut offenses: Vec<OffenseType> = Vec::new();
            offenses.push(multiple);
            assert(views(offenses@) =~= seq![whole]);
            ValidationResult { is_valid, offenses, errors: all.errors }
        }
    }
}

fn event_dates_of(results: &[ExeScriptCommandResult]) -> (dates: Vec<DateTime>)
    ensures
        dates@ == event_dates(views(results@)),
{
    let ghost all = views(results@);
    let mut dates: Vec<DateTime> = Vec::new();
    let mut i: usize = 0;
    while i < results.len()
        invariant
            i <= results.len(),
            all == views(results@),
            dates@ == event_dates(all).take(i as int),
        decreases results.len() - i,
    {
        dates.push(results[i].event_date);
        assert(dates@ =~= event_dates(all).take(i + 1));
        i += 1;
    }
    assert(dates@ =~= event_dates(all));
    dates
}

// ---------------------------------------------------------------- laws

/// Counting agrees with the multiset of the items.
proof fn lemma_count_is_multiplicity(items: Seq<u32>, x: u32)
    ensures
        items.to_multiset().count(x) == count(items, x),
    decreases items.len(),
{
    broadcast use vstd::seq_lib::group_to_multiset_ensures;
    broadcast use vstd::multiset::group_multiset_axioms;

    if items.len() > 0 {
        lemma_count_is_multiplicity(items.drop_last(), x);
        assert(items.drop_last().push(items.last()) =~= items);
        assert(items.to_multiset() =~= items.drop_last().to_multiset().insert(items.last()));
    }
}

proof fn lemma_sorted_is_ascending(numbers: Seq<u32>, sorted: Seq<u32>)
    requires
        sorted.to_multiset() == numbers.to_multiset(),
        forall|i: int, j: int| 0 <= i <= j < sorted.len() ==> sorted[i] <= sorted[j],
    ensures
        sorted == ascending(numbers),
{
    let own = ascending(numbers);
    let leq = |a: u32, b: u32| a <= b;
    lemma_ascending(numbers, 0);
    assert forall|x: u32| #[trigger] own.to_multiset().count(x) == numbers.to_multiset().count(
        x,
    ) by {
        lemma_count_is_multiplicity(own, x);
        lemma_count_is_multiplicity(numbers, x);
        lemma_ascending(numbers, x);
    }
    assert(own.to_multiset() =~= numbers.to_multiset());
    assert(vstd::relations::total_ordering(leq));
    assert(vstd::relations::sorted_by(sorted, leq));
    assert(vstd::relations::sorted_by(own, leq)) by {
        assert forall|i: int, j: int| 0 <= i < j < own.len() implies #[trigger] leq(
            own[i],
            own[j],
        ) by {
            assert(own[i] <= own[j]);
        }
    }
    vstd::seq_lib::lemma_sorted_unique(sorted, own, leq);
}

/// What is wrong with a place in the sorted indices, if anything.
pub open spec fn gap_at(sorted: Seq<u32>) -> spec_fn(int) -> Option<Seq<char>> {
    |i: int|
        if sorted[i] != i {
            Some(
                "Index discontinuity: expected "@ + decimal(i as nat) + ", got "@ + decimal(
                    sorted[i] as nat,
                ),
            )
        } else {
            None
        }
}

/// What is wrong with the index of a command, where an earlier one has it.
pub open spec fn repeat_at(commands: Seq<CommandView>) -> spec_fn(int) -> Option<Seq<char>> {
    |i: int|
        if exists|j: int| 0 <= j < i && (#[trigger] commands[j]).index == commands[i].index {
            Some("Duplicate index: "@ + decimal(commands[i].index as nat))
        } else {
            None
        }
}

/// What is wrong with the date of a command, where it lies in the future.
pub open spec fn future_at(now: DateTime) -> spec_fn(CommandView) -> Option<Seq<char>> {
    |c: CommandView|
        if is_later(c.event_date, now) {
            Some(
                "Future timestamp detected: "@ + decimal_int(
                    whole_seconds(elapsed_nanos(c.event_date, now)),
                ) + " seconds in the future"@,
            )
        } else {
            None
        }
}

/// The accusation against a command that is dated in the future.
pub open spec fn ahead_of(now: DateTime) -> spec_fn(CommandView) -> Option<OffenseView> {
    |c: CommandView|
        if is_later(c.event_date, now) {
            Some(
                OffenseView::TimestampAnomaly {
                    reported_time: c.event_date,
                    expected_time: now,
                    time_difference_secs: whole_seconds(
                        elapsed_nanos(c.event_date, now),
                    ) as i64,
                },
            )
        } else {
            None
        }
}

/// The first `n` places.
pub open spec fn places(n: nat) -> Seq<int> {
    Seq::new(n, |i: int| i)
}

proof fn lemma_gaps_by_place(sorted: Seq<u32>, n: nat)
    requires
        n <= sorted.len() <= 0x1_0000_0000,
    ensures
        gaps(sorted.take(n as int)) == places(n).filter_map(gap_at(sorted)),
    decreases n,
{
    if n == 0 {
        assert(gaps(sorted.take(0)) =~= places(0).filter_map(gap_at(sorted)));
    } else {
        let m = (n - 1) as nat;
        lemma_gaps_by_place(sorted, m);
        assert(sorted.take(n as int).drop_last() =~= sorted.take(m as int));
        assert(places(n).drop_last() =~= places(m));
        let front = places(m).filter_map(gap_at(sorted));
        if sorted[m as int] != m {
            let text = gap_text(m as int, sorted[m as int]);
            assert(front.push(text) =~= front + seq![text]);
        }
    }
}

proof fn lemma_repeats_by_place(commands: Seq<CommandView>, n: nat)
    requires
        n <= commands.len(),
    ensures
        repeats(indices(commands).take(n as int)) == places(n).filter_map(repeat_at(commands)),
    decreases n,
{
    let all = indices(commands);
    if n == 0 {
        assert(repeats(all.take(0)) =~= places(0).filter_map(repeat_at(commands)));
    } else {
        let m = (n - 1) as nat;
        lemma_repeats_by_place(commands, m);
        assert(all.take(n as int).drop_last() =~= all.take(m as int));
        assert(places(n).drop_last() =~= places(m));
        let front = places(m).filter_map(repeat_at(commands));
        let index = commands[m as int].index;
        assert(all.take(m as int).contains(index) <==> exists|j: int|
            0 <= j < m && (#[trigger] commands[j]).index == index) by {
            if all.take(m as int).contains(index) {
                let j = choose|j: int| 0 <= j < m && all.take(m as int)[j] == index;
                assert(commands[j].index == index);
            }
            if exists|j: int| 0 <= j < m && (#[trigger] commands[j]).index == index {
                let j = choose|j: int| 0 <= j < m && (#[trigger] commands[j]).index == index;
                assert(all.take(m as int)[j] == index);
            }
        }
        let text = "Duplicate index: "@ + decimal(index as nat);
        assert(front.push(text) =~= front + seq![text]);
    }
}

proof fn lemma_future_by_command(commands: Seq<CommandView>, now: DateTime)
    ensures
        future_times(commands, now).map_values(
            |t: DateTime| anomaly(t, now, whole_seconds(elapsed_nanos(t, now))),
        ) == commands.filter_map(ahead_of(now)),
        future_times(commands, now).map_values(|t: DateTime| future_text(t, now))
            == commands.filter_map(future_at(now)),
    decreases commands.len(),
{
    let f = |t: DateTime| anomaly(t, now, whole_seconds(elapsed_nanos(t, now)));
    let g = |t: DateTime| future_text(t, now);
    let a = future_times(commands, now).map_values(f);
    let b = future_times(commands, now).map_values(g);
    if commands.len() == 0 {
        assert(a =~= commands.filter_map(ahead_of(now)));
        assert(b =~= commands.filter_map(future_at(now)));
    } else {
        let front = commands.drop_last();
        lemma_future_by_command(front, now);
        let before = future_times(front, now);
        let t = commands.last().event_date;
        if is_later(t, now) {
            assert(before.push(t).map_values(f) =~= before.map_values(f) + seq![f(t)]);
            assert(before.push(t).map_values(g) =~= before.map_values(g) + seq![g(t)]);
        }
    }
}

/// Every place of the sorted indices that holds another number than its own is
/// named, then every command whose index came up before, then every one that is
/// dated in the future. There is one offense for each of these errors, and none
/// besides. That there are no commands is an error of its own.
pub proof fn law_format_errors_are_named(
    commands: Seq<CommandView>,
    sorted: Seq<u32>,
    now: DateTime,
)
    requires
        commands.len() <= 0x1_0000_0000,
        sorted.to_multiset() == commands.map_values(|c: CommandView| c.index).to_multiset(),
        forall|i: int, j: int| 0 <= i <= j < sorted.len() ==> sorted[i] <= sorted[j],
    ensures
        ({
            let found = format_check(commands, now);
            let named = places(commands.len()).filter_map(gap_at(sorted)) + places(
                commands.len(),
            ).filter_map(repeat_at(commands));
            &&& commands.len() > 0 ==> found.errors == named + commands.filter_map(future_at(now))
            &&& commands.len() > 0 ==> found.offenses == named.map_values(
                |text: Seq<char>| OffenseView::FormatViolation { violation: text },
            ) + commands.filter_map(ahead_of(now))
            &&& commands.len() == 0 ==> found.errors == seq!["Empty result set"@]
            &&& commands.len() == 0 ==> found.offenses == seq![
                OffenseView::FormatViolation { violation: "Empty result set"@ },
            ]
            &&& found.is_valid <==> found.errors.len() == 0
            &&& found.errors.len() == found.offenses.len()
        }),
{
    let numbers = indices(commands);
    let to_offense = |text: Seq<char>| OffenseView::FormatViolation { violation: text };
    assert(commands.map_values(|c: CommandView| c.index) =~= numbers);
    lemma_sorted_is_ascending(numbers, sorted);
    lemma_ascending(numbers, 0);
    lemma_gaps_by_place(sorted, sorted.len());
    lemma_repeats_by_place(commands, commands.len());
    lemma_future_by_command(commands, now);
    assert(sorted.take(sorted.len() as int) =~= sorted);
    assert(numbers.take(commands.len() as int) =~= numbers);
    let texts = gaps(ascending(numbers)) + repeats(numbers);
    assert(violations(texts) =~= texts.map_values(to_offense));
    if commands.len() == 0 {
        assert(format_check(commands, now).offenses =~= seq![
            OffenseView::FormatViolation { violation: "Empty result set"@ },
        ]);
    }
}

/// A reported number is too far off exactly where it lies more than the tolerated
/// share of the expected one above or below it. Where nothing is expected any
/// positive number is too much.
pub proof fn law_tolerance_is_a_share(reported: Decimal, expected: Decimal, tolerance: Decimal)
    ensures
        expected.micros > 0 ==> (exceeds(reported, expected, tolerance) <==> 1_000_000 * (
        reported.micros - expected.micros) > tolerance.micros * expected.micros || 1_000_000 * (
        expected.micros - reported.micros) > tolerance.micros * expected.micros),
        expected.micros <= 0 ==> (exceeds(reported, expected, tolerance) <==> reported.micros > 0
            || tolerance.micros < 0),
{
}

/// The accusation against a resource of which too much or too little is reported.
pub open spec fn inflated(
    consensus: Seq<(Seq<char>, Decimal)>,
    tolerance: Decimal,
) -> spec_fn((Seq<char>, Decimal)) -> Option<OffenseView> {
    |entry: (Seq<char>, Decimal)|
        match lookup(consensus, entry.0) {
            Some(expected) if exceeds(entry.1, expected, tolerance) => Some(
                OffenseView::ResourceInflation {
                    resource_type: entry.0,
                    reported_usage: entry.1,
                    expected_usage: expected,
                    inflation_ratio: inflation(entry.1, expected),
                },
            ),
            _ => None,
        }
}

/// What is said of a resource, where it is not known or its usage is too far off.
pub open spec fn remark(
    consensus: Seq<(Seq<char>, Decimal)>,
    tolerance: Decimal,
) -> spec_fn((Seq<char>, Decimal)) -> Option<Seq<char>> {
    |entry: (Seq<char>, Decimal)|
        match lookup(consensus, entry.0) {
            Some(expected) => if exceeds(entry.1, expected, tolerance) {
                Some(
                    "Resource inflation detected for "@ + entry.0 + ": reported "@ + micros_text(
                        entry.1.micros as int,
                    ) + ", expected "@ + micros_text(expected.micros as int) + ", ratio: "@
                        + if expected.micros > 0 {
                        rounded_text(entry.1.micros as int, expected.micros as nat, 2)
                    } else {
                        "inf"@
                    },
                )
            } else {
                None
            },
            None => Some("Unknown resource type in usage: "@ + entry.0),
        }
}

/// Usage is valid exactly where no resource with a known consensus is reported too
/// far off it. Each that is, is accused with both numbers and their ratio, in the
/// order of the report; one that is not known is remarked on, no more.
pub proof fn law_usage_is_judged_by_resource(
    reported: Seq<(Seq<char>, Decimal)>,
    consensus: Seq<(Seq<char>, Decimal)>,
    tolerance: Decimal,
)
    ensures
        ({
            let found = usage_check(reported, consensus, tolerance);
            &&& found.is_valid <==> forall|i: int|
                0 <= i < reported.len() ==> (lookup(consensus, (#[trigger] reported[i]).0)
                    matches Some(expected) ==> !exceeds(reported[i].1, expected, tolerance))
            &&& found.offenses == reported.filter_map(inflated(consensus, tolerance))
            &&& found.errors == reported.filter_map(remark(consensus, tolerance))
        }),
    decreases reported.len(),
{
    let found = usage_check(reported, consensus, tolerance);
    if reported.len() == 0 {
        assert(found.offenses =~= reported.filter_map(inflated(consensus, tolerance)));
        assert(found.errors =~= reported.filter_map(remark(consensus, tolerance)));
    } else {
        let front = reported.drop_last();
        let last = reported.len() - 1;
        law_usage_is_judged_by_resource(front, consensus, tolerance);
        let before = usage_check(front, consensus, tolerance);
        if let Some(offense) = inflated(consensus, tolerance)(reported.last()) {
            assert(before.offenses.push(offense) =~= before.offenses + seq![offense]);
        }
        if let Some(text) = remark(consensus, tolerance)(reported.last()) {
            assert(before.errors.push(text) =~= before.errors + seq![text]);
        }
        assert forall|i: int| 0 <= i < front.len() implies front[i] == reported[i] by {}
        if found.is_valid {
            assert forall|i: int| 0 <= i < reported.len() implies (lookup(
                consensus,
                (#[trigger] reported[i]).0,
            ) matches Some(expected) ==> !exceeds(reported[i].1, expected, tolerance)) by {
                if i < last {
                    assert(front[i] == reported[i]);
                }
            }
        } else if before.is_valid {
            assert(reported[last] == reported.last());
        } else {
            let i = choose|i: int|
                0 <= i < front.len() && !(lookup(consensus, (#[trigger] front[i]).0) matches Some(
                    expected,
                ) ==> !exceeds(front[i].1, expected, tolerance));
            assert(reported[i] == front[i]);
        }
    }
}

/// The ratio of an inflated usage is what was reported divided by what was
/// expected, rounded down to millionths, and has no bound where nothing was
/// expected.
pub proof fn law_inflation_is_the_quotient(reported: Decimal, expected: Decimal)
    ensures
        expected.micros <= 0 ==> inflation(reported, expected) is Infinite,
        expected.micros > 0 ==> inflation(reported, expected) is Finite,
        expected.micros > 0 ==> ({
            let ratio = inflation(reported, expected)->Finite_0.micros;
            i64::MIN < ratio < i64::MAX ==> ratio * expected.micros <= reported.micros * 1_000_000
                < (ratio + 1) * expected.micros
        }),
{
    if expected.micros > 0 {
        let a = reported.micros * 1_000_000;
        let b = expected.micros as int;
        assert((a / b) * b <= a < (a / b + 1) * b) by (nonlinear_arith)
            requires
                b > 0,
        ;
    }
}

/// A cost is valid exactly where it is not too far off the consensus. Otherwise
/// there is one accusation, with both costs and their difference, and one error.
pub proof fn law_cost_is_judged(reported: Decimal, consensus: Decimal, tolerance: Decimal)
    ensures
        ({
            let found = cost_check(reported, consensus, tolerance);
            let difference = if reported.micros >= consensus.micros {
                reported.micros - consensus.micros
            } else {
                consensus.micros - reported.micros
            };
            &&& found.is_valid <==> !exceeds(reported, consensus, tolerance)
            &&& found.is_valid ==> found.offenses.len() == 0 && found.errors.len() == 0
            &&& !found.is_valid ==> found.offenses.len() == 1 && found.errors.len() == 1
            &&& !found.is_valid ==> found.offenses[0] == (OffenseView::CostFraud {
                reported_cost: reported,
                expected_cost: consensus,
                cost_difference: Quantity { micros: difference as u64 },
            })
            &&& !found.is_valid ==> found.errors[0] == "Cost fraud detected: reported "@
                + micros_text(reported.micros as int) + ", expected "@ + micros_text(
                consensus.micros as int,
            ) + ", difference: "@ + rounded_text(difference, 1_000_000, 6) + ", ratio: "@ + (
            if consensus.micros > 0 {
                rounded_text(difference * 100, consensus.micros as nat, 2)
            } else if reported.micros > 0 {
                "inf"@
            } else {
                "0.00"@
            }) + "%"@
        }),
{
}

/// The whole seconds between two instants, whichever comes first.
pub open spec fn gap_secs(a: DateTime, b: DateTime) -> int {
    let secs = whole_seconds(elapsed_nanos(a, b));
    if secs < 0 {
        -secs
    } else {
        secs
    }
}

/// The accusation against a time that is too far from the consensus.
pub open spec fn stray(consensus: DateTime, max_secs: int) -> spec_fn(DateTime) -> Option<
    OffenseView,
> {
    |t: DateTime|
        if gap_secs(t, consensus) > max_secs {
            Some(
                OffenseView::TimestampAnomaly {
                    reported_time: t,
                    expected_time: consensus,
                    time_difference_secs: gap_secs(t, consensus) as i64,
                },
            )
        } else {
            None
        }
}

/// What is said of a time that is too far from the consensus.
pub open spec fn stray_remark(consensus: DateTime, max_secs: int) -> spec_fn(DateTime) -> Option<
    Seq<char>,
> {
    |t: DateTime|
        if gap_secs(t, consensus) > max_secs {
            Some(
                "Timestamp anomaly: "@ + decimal_int(gap_secs(t, consensus))
                    + " seconds difference (max allowed: "@ + decimal_int(max_secs) + ")"@,
            )
        } else {
            None
        }
}

/// Times are valid exactly where none is more than the allowed number of whole
/// seconds from the consensus, before it or after it. Each that is, is accused.
pub proof fn law_times_are_judged(times: Seq<DateTime>, consensus: DateTime, max_secs: int)
    ensures
        ({
            let found = time_check(times, consensus, max_secs);
            &&& found.is_valid <==> forall|i: int|
                0 <= i < times.len() ==> gap_secs(#[trigger] times[i], consensus) <= max_secs
            &&& found.offenses == times.filter_map(stray(consensus, max_secs))
            &&& found.errors == times.filter_map(stray_remark(consensus, max_secs))
        }),
    decreases times.len(),
{
    let f = |t: DateTime| anomaly(t, consensus, seconds_apart(t, consensus));
    let g = |t: DateTime| stray_text(t, consensus, max_secs);
    let found = time_check(times, consensus, max_secs);
    assert(found.offenses =~= strays(times, consensus, max_secs).map_values(f));
    assert(found.errors =~= strays(times, consensus, max_secs).map_values(g));
    if times.len() == 0 {
        assert(found.offenses =~= times.filter_map(stray(consensus, max_secs)));
        assert(found.errors =~= times.filter_map(stray_remark(consensus, max_secs)));
    } else {
        let front = times.drop_last();
        let last = times.len() - 1;
        law_times_are_judged(front, consensus, max_secs);
        let before = strays(front, consensus, max_secs);
        let earlier = time_check(front, consensus, max_secs);
        assert(earlier.offenses =~= before.map_values(f));
        assert(earlier.errors =~= before.map_values(g));
        let t = times.last();
        assert(seconds_apart(t, consensus) == gap_secs(t, consensus));
        if gap_secs(t, consensus) > max_secs {
            assert(before.push(t).map_values(f) =~= before.map_values(f) + seq![f(t)]);
            assert(before.push(t).map_values(g) =~= before.map_values(g) + seq![g(t)]);
            assert(gap_secs(times[last], consensus) > max_secs);
            assert(!found.is_valid);
        } else {
            assert(found.offenses == earlier.offenses);
            if earlier.is_valid {
                assert forall|i: int| 0 <= i < times.len() implies gap_secs(
                    #[trigger] times[i],
                    consensus,
                ) <= max_secs by {
                    if i < last {
                        assert(front[i] == times[i]);
                    }
                }
            } else {
                let i = choose|i: int|
                    0 <= i < front.len() && gap_secs(#[trigger] front[i], consensus) > max_secs;
                assert(times[i] == front[i]);
            }
        }
    }
}

/// What the four checks that make up a comprehensive one find. Usage and cost are
/// checked where both sides are given, and times where there is a consensus.
pub open spec fn parts(
    validator: ResultValidator,
    commands: Seq<CommandView>,
    consensus_commands: Seq<CommandView>,
    reported_usage: Option<Seq<(Seq<char>, Decimal)>>,
    consensus_usage: Option<Seq<(Seq<char>, Decimal)>>,
    reported_cost: Option<Decimal>,
    consensus_cost: Option<Decimal>,
    now: DateTime,
) -> Seq<ValidationView> {
    let format = seq![format_check(commands, now)];
    let usage = if reported_usage is Some && consensus_usage is Some {
        seq![
            usage_check(
                reported_usage.unwrap(),
                consensus_usage.unwrap(),
                validator.resource_tolerance,
            ),
        ]
    } else {
        seq![]
    };
    let cost = if reported_cost is Some && consensus_cost is Some {
        seq![
            cost_check(
                reported_cost.unwrap(),
                consensus_cost.unwrap(),
                validator.cost_tolerance,
            ),
        ]
    } else {
        seq![]
    };
    let times = if consensus_commands.len() > 0 {
        seq![
            time_check(
                commands.map_values(|c: CommandView| c.event_date),
                consensus_commands[0].event_date,
                validator.max_timestamp_diff_secs as int,
            ),
        ]
    } else {
        seq![]
    };
    format + usage + cost + times
}

/// A comprehensive validation is valid exactly where each of its parts is, and its
/// errors are those of its parts, one after the other. Where the parts name no
/// offense or one, so does the whole; several are named as one that holds them
/// all, in order.
pub proof fn law_comprehensive_is_all_parts(
    validator: ResultValidator,
    commands: Seq<CommandView>,
    consensus_commands: Seq<CommandView>,
    reported_usage: Option<Seq<(Seq<char>, Decimal)>>,
    consensus_usage: Option<Seq<(Seq<char>, Decimal)>>,
    reported_cost: Option<Decimal>,
    consensus_cost: Option<Decimal>,
    now: DateTime,
)
    ensures
        ({
            let all = parts(
                validator,
                commands,
                consensus_commands,
                reported_usage,
                consensus_usage,
                reported_cost,
                consensus_cost,
                now,
            );
            let found = comprehensive_check(
                validator,
                commands,
                consensus_commands,
                reported_usage,
                consensus_usage,
                reported_cost,
                consensus_cost,
                now,
            );
            let offenses = all.map_values(|part: ValidationView| part.offenses).flatten();
            &&& found.is_valid <==> forall|i: int|
                0 <= i < all.len() ==> (#[trigger] all[i]).is_valid
            &&& found.errors == all.map_values(|part: ValidationView| part.errors).flatten()
            &&& offenses.len() <= 1 ==> found.offenses == offenses
            &&& offenses.len() > 1 ==> found.offenses == seq![OffenseView::Multiple(offenses)]
        }),
{
    let all = parts(
        validator,
        commands,
        consensus_commands,
        reported_usage,
        consensus_usage,
        reported_cost,
        consensus_cost,
        now,
    );
    let found = comprehensive_check(
        validator,
        commands,
        consensus_commands,
        reported_usage,
        consensus_usage,
        reported_cost,
        consensus_cost,
        now,
    );
    assert(commands.map_values(|c: CommandView| c.event_date) =~= event_dates(commands));
    let format = format_check(commands, now);
    let usage = match (reported_usage, consensus_usage) {
        (Some(reported), Some(consensus)) => usage_check(
            reported,
            consensus,
            validator.resource_tolerance,
        ),
        _ => nothing(),
    };
    let cost = match (reported_cost, consensus_cost) {
        (Some(reported), Some(consensus)) => cost_check(
            reported,
            consensus,
            validator.cost_tolerance,
        ),
        _ => nothing(),
    };
    let times = if consensus_commands.len() > 0 {
        time_check(
            event_dates(commands),
            consensus_commands[0].event_date,
            validator.max_timestamp_diff_secs as int,
        )
    } else {
        nothing()
    };
    let o = |part: ValidationView| part.offenses;
    let e = |part: ValidationView| part.errors;
    let u = reported_usage is Some && consensus_usage is Some;
    let c = reported_cost is Some && consensus_cost is Some;
    let t = consensus_commands.len() > 0;
    let one = seq![format];
    let two = if u {
        one.push(usage)
    } else {
        one
    };
    let three = if c {
        two.push(cost)
    } else {
        two
    };
    let four = if t {
        three.push(times)
    } else {
        three
    };
    assert(all =~= four);
    lemma_flat_push(Seq::empty(), format);
    assert(Seq::<ValidationView>::empty().push(format) =~= one);
    lemma_flat_push(one, usage);
    lemma_flat_push(two, cost);
    lemma_flat_push(three, times);
    assert(all.map_values(o).flatten() =~= format.offenses + usage.offenses + cost.offenses
        + times.offenses);
    assert(all.map_values(e).flatten() =~= format.errors + usage.errors + cost.errors
        + times.errors);
    assert(all[0] == format);
    if u {
        assert(all[1] == usage);
    }
    if c {
        assert(all[two.len() as int] == cost);
    }
    if t {
        assert(all[three.len() as int] == times);
    }
    let sum = format.offenses + usage.offenses + cost.offenses + times.offenses;
    assert(joined(joined(joined(format, usage), cost), times).offenses =~= sum);
}

proof fn lemma_flat_push(list: Seq<ValidationView>, part: ValidationView)
    ensures
        list.push(part).map_values(|part: ValidationView| part.offenses).flatten()
            == list.map_values(|part: ValidationView| part.offenses).flatten() + part.offenses,
        list.push(part).map_values(|part: ValidationView| part.errors).flatten()
            == list.map_values(|part: ValidationView| part.errors).flatten() + part.errors,
        list.len() == 0 ==> list.map_values(
            |part: ValidationView| part.offenses,
        ).flatten().len() == 0,
        list.len() == 0 ==> list.map_values(|part: ValidationView| part.errors).flatten().len()
            == 0,
{
    let o = |part: ValidationView| part.offenses;
    let e = |part: ValidationView| part.errors;
    lemma_flatten_push(list.map_values(o), part.offenses);
    lemma_flatten_push(list.map_values(e), part.errors);
    assert(list.push(part).map_values(o) =~= list.map_values(o).push(part.offenses));
    assert(list.push(part).map_values(e) =~= list.map_values(e).push(part.errors));
}

proof fn lemma_flatten_push<A>(lists: Seq<Seq<A>>, list: Seq<A>)
    ensures
        lists.push(list).flatten() == lists.flatten() + list,
    decreases lists.len(),
{
    let all = lists.push(list);
    if lists.len() == 0 {
        assert(all.drop_first() =~= lists);
        assert(all.flatten() =~= list + lists.flatten());
        assert(lists.flatten() + list =~= list);
        assert(list + lists.flatten() =~= list);
    } else {
        lemma_flatten_push(lists.drop_first(), list);
        assert(all.drop_first() =~= lists.drop_first().push(list));
        assert(all.first() == lists.first());
        assert(all.flatten() =~= lists.flatten() + list);
    }
}

/// Results are valid as a whole only where there are commands, numbered from zero
/// without gap or repetition, none of them dated in the future or too far from the
/// consensus, and usage and cost, where both sides are known, within tolerance.
pub proof fn law_valid_results_pass_every_check(
    validator: ResultValidator,
    commands: Seq<CommandView>,
    consensus_commands: Seq<CommandView>,
    reported_usage: Option<Seq<(Seq<char>, Decimal)>>,
    consensus_usage: Option<Seq<(Seq<char>, Decimal)>>,
    reported_cost: Option<Decimal>,
    consensus_cost: Option<Decimal>,
    now: DateTime,
)
    ensures
        comprehensive_check(
            validator,
            commands,
            consensus_commands,
            reported_usage,
            consensus_usage,
            reported_cost,
            consensus_cost,
            now,
        ).is_valid <==> {
            &&& commands.len() > 0
            &&& forall|i: int|
                0 <= i < commands.len() ==> (#[trigger] commands[i]).index < commands.len()
                    && !is_later(commands[i].event_date, now)
            &&& forall|i: int, j: int|
                0 <= i < j < commands.len() ==> (#[trigger] commands[i]).index != (
                #[trigger] commands[j]).index
            &&& reported_usage is Some && consensus_usage is Some ==> forall|i: int|
                0 <= i < reported_usage.unwrap().len() ==> (lookup(
                    consensus_usage.unwrap(),
                    (#[trigger] reported_usage.unwrap()[i]).0,
                ) matches Some(expected) ==> !exceeds(
                    reported_usage.unwrap()[i].1,
                    expected,
                    validator.resource_tolerance,
                ))
            &&& reported_cost is Some && consensus_cost is Some ==> !exceeds(
                reported_cost.unwrap(),
                consensus_cost.unwrap(),
                validator.cost_tolerance,
            )
            &&& consensus_commands.len() > 0 ==> forall|i: int|
                0 <= i < commands.len() ==> gap_secs(
                    (#[trigger] commands[i]).event_date,
                    consensus_commands[0].event_date,
                ) <= validator.max_timestamp_diff_secs
        },
{
    let format = format_check(commands, now);
    law_valid_format(commands, now);
    let numbers = indices(commands);
    assert(format.is_valid <==> {
        &&& commands.len() > 0
        &&& forall|i: int|
            0 <= i < commands.len() ==> (#[trigger] commands[i]).index < commands.len()
                && !is_later(commands[i].event_date, now)
        &&& forall|i: int, j: int|
            0 <= i < j < commands.len() ==> (#[trigger] commands[i]).index != (
            #[trigger] commands[j]).index
    }) by {
        assert forall|i: int| 0 <= i < commands.len() implies #[trigger] numbers[i]
            == commands[i].index by {}
        if format.is_valid {
            assert forall|i: int| 0 <= i < commands.len() implies (#[trigger] commands[i]).index
                < commands.len() && !is_later(commands[i].event_date, now) by {
                assert(numbers[i] < numbers.len());
            }
            assert forall|i: int, j: int| 0 <= i < j < commands.len() implies (
            #[trigger] commands[i]).index != (#[trigger] commands[j]).index by {
                assert(numbers[i] != numbers[j]);
            }
        } else if commands.len() > 0 {
            if forall|i: int|
                0 <= i < commands.len() ==> (#[trigger] commands[i]).index < commands.len()
                    && !is_later(commands[i].event_date, now) {
                assert forall|i: int| 0 <= i < numbers.len() implies #[trigger] numbers[i]
                    < numbers.len() by {
                    assert(commands[i].index < commands.len());
                }
                assert(!numbers.no_duplicates());
                let (i, j) = choose|i: int, j: int|
                    0 <= i < numbers.len() && 0 <= j < numbers.len() && i != j && numbers[i]
                        == numbers[j];
                if i < j {
                    assert(commands[i].index == commands[j].index);
                } else {
                    assert(commands[j].index == commands[i].index);
                }
            }
        }
    }
    if reported_usage is Some && consensus_usage is Some {
        law_usage_is_judged_by_resource(
            reported_usage.unwrap(),
            consensus_usage.unwrap(),
            validator.resource_tolerance,
        );
    }
    if consensus_commands.len() > 0 {
        let dates = event_dates(commands);
        let measure = consensus_commands[0].event_date;
        let max = validator.max_timestamp_diff_secs as int;
        law_times_are_judged(dates, measure, max);
        assert(time_check(dates, measure, max).is_valid <==> forall|i: int|
            0 <= i < commands.len() ==> gap_secs((#[trigger] commands[i]).event_date, measure)
                <= max) by {
            assert forall|i: int| 0 <= i < commands.len() implies #[trigger] dates[i]
                == commands[i].event_date by {}
            if time_check(dates, measure, max).is_valid {
                assert forall|i: int| 0 <= i < commands.len() implies gap_secs(
                    (#[trigger] commands[i]).event_date,
                    measure,
                ) <= max by {
                    assert(gap_secs(dates[i], measure) <= max);
                }
            } else {
                let i = choose|i: int|
                    0 <= i < dates.len() && gap_secs(#[trigger] dates[i], measure) > max;
                assert(gap_secs(commands[i].event_date, measure) > max);
            }
        }
    }
}

} // verus!
