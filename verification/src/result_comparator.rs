//! Comparison of results command by command.
//!
//! A provider that tampers with some commands only is found by comparing each
//! command with what most providers returned for it.
use crate::command::{commands_to_json, output_to_json, CommandOutput, ExeScriptCommandResult};
#[allow(unused_imports)]
use crate::command::{commands_json, CommandView, OutputView};
#[allow(unused_imports)]
use crate::consensus::{count, lemma_count_bound, lemma_disjoint_counts};
use crate::fixed::Quantity;
use crate::ordered_map::MapKey;
use crate::views::duplicate_all;
#[allow(unused_imports)]
use crate::views::{view_opt, views};
use std::collections::HashMap;
use vstd::prelude::*;

verus! {

/// How the providers' results for one command compare.
#[derive(Debug, PartialEq, Eq)]
pub struct CommandComparison {
    /// The place of the command in the batch.
    pub index: u32,
    /// Whether this command matches the consensus.
    pub matches: bool,
    /// The providers whose result for this command matches.
    pub matching_providers: Vec<usize>,
    /// The providers whose result for this command differs or is missing.
    pub mismatching_providers: Vec<usize>,
}

/// The mathematical value of a [`CommandComparison`].
pub struct ComparisonView {
    pub index: u32,
    pub matches: bool,
    pub matching_providers: Seq<usize>,
    pub mismatching_providers: Seq<usize>,
}

impl View for CommandComparison {
    type V = ComparisonView;

    open spec fn view(&self) -> ComparisonView {
        ComparisonView {
            index: self.index,
            matches: self.matches,
            matching_providers: self.matching_providers@,
            mismatching_providers: self.mismatching_providers@,
        }
    }
}

impl Clone for CommandComparison {
    fn clone(&self) -> (copy: Self)
        ensures
            copy@ == self@,
    {
        let copy = CommandComparison {
            index: self.index,
            matches: self.matches,
            matching_providers: duplicate_all(self.matching_providers.as_slice()),
            mismatching_providers: duplicate_all(self.mismatching_providers.as_slice()),
        };
        proof {
            assert(views(self.matching_providers@) =~= self.matching_providers@);
            assert(views(copy.matching_providers@) =~= copy.matching_providers@);
            assert(views(self.mismatching_providers@) =~= self.mismatching_providers@);
            assert(views(copy.mismatching_providers@) =~= copy.mismatching_providers@);
        }
        copy
    }
}

/// The batches of all providers.
pub open spec fn batches(results: Seq<Vec<ExeScriptCommandResult>>) -> Seq<Seq<CommandView>> {
    results.map_values(|batch: Vec<ExeScriptCommandResult>| views(batch@))
}

/// The length of the longest batch.
pub open spec fn width(results: Seq<Seq<CommandView>>) -> nat
    decreases results.len(),
{
    if results.len() == 0 {
        0
    } else {
        let before = width(results.drop_last());
        if results.last().len() > before {
            results.last().len()
        } else {
            before
        }
    }
}

/// The `k`-th command of each provider, where there is one.
pub open spec fn column(results: Seq<Seq<CommandView>>, k: int) -> Seq<Option<CommandView>> {
    results.map_values(
        |batch: Seq<CommandView>|
            if 0 <= k < batch.len() {
                Some(batch[k])
            } else {
                None
            },
    )
}

/// The values that are there.
pub open spec fn present<A>(items: Seq<Option<A>>) -> Seq<A>
    decreases items.len(),
{
    if items.len() == 0 {
        Seq::empty()
    } else {
        match items.last() {
            Some(item) => present(items.drop_last()).push(item),
            None => present(items.drop_last()),
        }
    }
}

/// Whether no item occurs more often than the `i`-th.
pub open spec fn is_mode<A>(items: Seq<A>, i: int) -> bool {
    &&& 0 <= i < items.len()
    &&& forall|j: int|
        0 <= j < items.len() ==> count(items, #[trigger] items[j]) <= count(items, items[i])
}

/// Whether the `i`-th item is the first that occurs most often.
pub open spec fn is_first_mode<A>(items: Seq<A>, i: int) -> bool {
    is_mode(items, i) && forall|j: int| 0 <= j < i ==> !is_mode(items, j)
}

/// The item that occurs most often; of several such, the one that came first.
pub open spec fn most_common<A>(items: Seq<A>) -> Option<A> {
    if exists|i: int| is_first_mode(items, i) {
        Some(items[choose|i: int| is_first_mode(items, i)])
    } else {
        None
    }
}

/// Whether there is no output, or only empty text.
pub open spec fn is_blank(output: Option<OutputView>) -> bool {
    match output {
        None => true,
        Some(OutputView::Str(text)) => text.len() == 0,
        Some(OutputView::Bin(_)) => false,
    }
}

/// Whether two outputs count as the same: they are equal, or both are blank.
pub open spec fn same_output(a: Option<OutputView>, b: Option<OutputView>) -> bool {
    a == b || (is_blank(a) && is_blank(b))
}

/// Whether two results of a command match: messages and times do not count, and
/// no output is as good as empty text.
pub open spec fn same_command(a: CommandView, b: CommandView) -> bool {
    &&& a.index == b.index
    &&& a.result == b.result
    &&& a.is_batch_finished == b.is_batch_finished
    &&& same_output(a.stdout, b.stdout)
    &&& same_output(a.stderr, b.stderr)
}

/// For each provider, whether its result matches the most common one.
pub open spec fn matching(column: Seq<Option<CommandView>>) -> Seq<bool> {
    let consensus = most_common(present(column));
    column.map_values(
        |command: Option<CommandView>|
            match (command, consensus) {
                (Some(c), Some(m)) => same_command(c, m),
                _ => false,
            },
    )
}

/// The positions at which `flags` is `wanted`, in ascending order.
pub open spec fn positions(flags: Seq<bool>, wanted: bool) -> Seq<usize>
    decreases flags.len(),
{
    if flags.len() == 0 {
        Seq::empty()
    } else {
        let before = positions(flags.drop_last(), wanted);
        if flags.last() == wanted {
            before.push((flags.len() - 1) as usize)
        } else {
            before
        }
    }
}

/// How the providers' results for the `k`-th command compare.
pub open spec fn comparison(results: Seq<Seq<CommandView>>, k: int) -> ComparisonView {
    let flags = matching(column(results, k));
    ComparisonView {
        index: k as u32,
        matches: positions(flags, false).len() == 0,
        matching_providers: positions(flags, true),
        mismatching_providers: positions(flags, false),
    }
}

/// The comparisons of the first `n` commands. They are filed under 32-bit
/// numbers.
pub open spec fn comparisons(results: Seq<Seq<CommandView>>, n: nat) -> Map<u32, ComparisonView>
    decreases n,
{
    if n == 0 {
        Map::empty()
    } else {
        comparisons(results, (n - 1) as nat).insert(
            (n - 1) as u32,
            comparison(results, n - 1),
        )
    }
}

/// The number of commands that are told apart.
pub open spec fn compared(results: Seq<Seq<CommandView>>) -> int {
    if width(results) > 0x1_0000_0000 {
        0x1_0000_0000
    } else {
        width(results) as int
    }
}

/// Among the first `n` commands, those on which a provider deviates.
pub open spec fn deviations(results: Seq<Seq<CommandView>>, provider: usize, n: nat) -> nat
    decreases n,
{
    if n == 0 {
        0
    } else {
        let all = comparisons(results, width(results));
        deviations(results, provider, (n - 1) as nat) + if all[(n
            - 1) as u32].mismatching_providers.contains(provider) {
            1nat
        } else {
            0nat
        }
    }
}

/// Whether a provider deviates on at least the given share of the commands.
pub open spec fn is_tampered(
    results: Seq<Seq<CommandView>>,
    provider: int,
    min_mismatch_ratio: Quantity,
) -> bool {
    let total = compared(results);
    &&& total > 0
    &&& deviations(results, provider as usize, total as nat) * 1_000_000
        >= min_mismatch_ratio.micros * total
}

/// The providers that deviate on at least the given share of the commands.
pub open spec fn tampered(
    results: Seq<Seq<CommandView>>,
    min_mismatch_ratio: Quantity,
) -> Seq<usize> {
    positions(
        Seq::new(results.len(), |p: int| is_tampered(results, p, min_mismatch_ratio)),
        true,
    )
}

/// A position is listed where its flag is as wanted, and once.
pub proof fn lemma_positions(flags: Seq<bool>, wanted: bool)
    requires
        flags.len() <= usize::MAX,
    ensures
        forall|p: usize| #[trigger]
            positions(flags, wanted).contains(p) <==> p < flags.len() && flags[p as int] == wanted,
        positions(flags, true).len() + positions(flags, false).len() == flags.len(),
    decreases flags.len(),
{
    if flags.len() > 0 {
        let front = flags.drop_last();
        lemma_positions(front, wanted);
        let before = positions(front, wanted);
        let now = positions(flags, wanted);
        assert forall|p: usize| #[trigger] now.contains(p) <==> p < flags.len() && flags[p as int]
            == wanted by {
            if p < flags.len() - 1 {
                assert(front[p as int] == flags[p as int]);
                if before.contains(p) {
                    let j = choose|j: int| 0 <= j < before.len() && before[j] == p;
                    assert(now[j] == p);
                }
            }
            if now.contains(p) {
                let j = choose|j: int| 0 <= j < now.len() && now[j] == p;
                if j < before.len() {
                    assert(before[j] == p);
                    assert(before.contains(p));
                }
            }
            if p == flags.len() - 1 && flags.last() == wanted {
                assert(now[now.len() - 1] == p);
            }
        }
    }
}

/// Every provider is on exactly one side of a comparison, and the command
/// matches where none is on the wrong side.
pub proof fn law_comparison_partitions_providers(
    results: Seq<Seq<CommandView>>,
    k: int,
    provider: usize,
)
    requires
        results.len() <= usize::MAX,
        provider < results.len(),
    ensures
        comparison(results, k).matching_providers.contains(provider) != comparison(
            results,
            k,
        ).mismatching_providers.contains(provider),
        comparison(results, k).matching_providers.len() + comparison(
            results,
            k,
        ).mismatching_providers.len() == results.len(),
        comparison(results, k).matches <==> comparison(results, k).matching_providers.len()
            == results.len(),
{
    let flags = matching(column(results, k));
    lemma_positions(flags, true);
    lemma_positions(flags, false);
}

/// A provider without its command is on the wrong side.
pub proof fn law_missing_command_is_a_mismatch(
    results: Seq<Seq<CommandView>>,
    k: int,
    provider: usize,
)
    requires
        results.len() <= usize::MAX,
        provider < results.len(),
        k >= results[provider as int].len(),
    ensures
        comparison(results, k).mismatching_providers.contains(provider),
{
    lemma_positions(matching(column(results, k)), false);
}

/// With a bound above zero, a provider that deviates on no command is not
/// reported.
pub proof fn law_consistent_provider_is_not_reported(
    results: Seq<Seq<CommandView>>,
    provider: usize,
    min_mismatch_ratio: Quantity,
)
    requires
        results.len() <= usize::MAX,
        min_mismatch_ratio.micros > 0,
        deviations(results, provider, compared(results) as nat) == 0,
    ensures
        !tampered(results, min_mismatch_ratio).contains(provider),
{
    let flags = Seq::new(results.len(), |p: int| is_tampered(results, p, min_mismatch_ratio));
    lemma_positions(flags, true);
    let total = compared(results);
    if total > 0 {
        assert(min_mismatch_ratio.micros * total > 0) by (nonlinear_arith)
            requires
                total > 0,
                min_mismatch_ratio.micros > 0,
        ;
    }
}

/// What more than half of the items are is the most common one.
proof fn lemma_majority_is_most_common<A>(items: Seq<A>, item: A)
    requires
        2 * count(items, item) > items.len(),
    ensures
        most_common(items) == Some(item),
{
    lemma_count_bound(items, item);
    let at = lemma_first(items, item);
    assert forall|j: int| 0 <= j < items.len() implies count(items, #[trigger] items[j]) <= count(
        items,
        items[at],
    ) by {
        if items[j] != item {
            lemma_disjoint_counts(items, items[j], item);
        }
    }
    assert forall|j: int| 0 <= j < at implies !is_mode(items, j) by {
        lemma_disjoint_counts(items, items[j], item);
        assert(count(items, items[at]) > count(items, items[j]));
    }
    assert(is_first_mode(items, at));
    let chosen = choose|i: int| is_first_mode(items, i);
    if chosen < at {
        assert(!is_mode(items, chosen));
    } else if at < chosen {
        assert(!is_mode(items, at));
    }
}

/// The first place of an item.
proof fn lemma_first<A>(items: Seq<A>, item: A) -> (at: int)
    requires
        items.contains(item),
    ensures
        0 <= at < items.len(),
        items[at] == item,
        forall|j: int| 0 <= j < at ==> items[j] != item,
    decreases items.len(),
{
    let front = items.drop_last();
    if front.contains(item) {
        let at = lemma_first(front, item);
        assert forall|j: int| 0 <= j < at implies items[j] != item by {
            assert(front[j] == items[j]);
        }
        assert(front[at] == items[at]);
        at
    } else {
        let i = choose|i: int| 0 <= i < items.len() && items[i] == item;
        let last = items.len() - 1;
        assert forall|j: int| 0 <= j < last implies items[j] != item by {
            assert(front[j] == items[j]);
        }
        last
    }
}

/// Nothing is wider than the longest batch.
proof fn lemma_width(results: Seq<Seq<CommandView>>, n: nat)
    requires
        forall|i: int| 0 <= i < results.len() ==> (#[trigger] results[i]).len() <= n,
    ensures
        width(results) <= n,
    decreases results.len(),
{
    if results.len() > 0 {
        let front = results.drop_last();
        assert forall|i: int| 0 <= i < front.len() implies (#[trigger] front[i]).len() <= n by {
            assert(front[i] == results[i]);
        }
        lemma_width(front, n);
    }
}

/// A command occurs at least as often as the batch it stands in.
proof fn lemma_column_count(results: Seq<Seq<CommandView>>, batch: Seq<CommandView>, k: int)
    requires
        0 <= k < batch.len(),
    ensures
        count(present(column(results, k)), batch[k]) >= count(results, batch),
        present(column(results, k)).len() <= results.len(),
    decreases results.len(),
{
    if results.len() > 0 {
        let front = results.drop_last();
        lemma_column_count(front, batch, k);
        let before = column(front, k);
        let now = column(results, k);
        assert(now.drop_last() =~= before);
        if let Some(command) = now.last() {
            assert(present(now) == present(before).push(command));
            assert(present(now).drop_last() =~= present(before));
        }
    }
}

/// What is filed is the comparison of some command.
proof fn lemma_filed(results: Seq<Seq<CommandView>>, n: nat, x: u32)
    requires
        comparisons(results, n).dom().contains(x),
    ensures
        exists|k: int|
            0 <= k < n && comparisons(results, n)[x] == #[trigger] comparison(results, k),
    decreases n,
{
    if n > 0 {
        if x == (n - 1) as u32 {
            assert(comparisons(results, n)[x] == comparison(results, n - 1));
        } else {
            lemma_filed(results, (n - 1) as nat, x);
            let k = choose|k: int|
                0 <= k < n - 1 && comparisons(results, (n - 1) as nat)[x] == #[trigger] comparison(
                    results,
                    k,
                );
            assert(comparisons(results, n)[x] == comparison(results, k));
        }
    }
}

proof fn lemma_no_deviation(results: Seq<Seq<CommandView>>, provider: usize, n: nat)
    requires
        n <= compared(results),
        forall|k: int|
            0 <= k < width(results) ==> !(#[trigger] comparison(
                results,
                k,
            )).mismatching_providers.contains(provider),
    ensures
        deviations(results, provider, n) == 0,
    decreases n,
{
    if n > 0 {
        lemma_no_deviation(results, provider, (n - 1) as nat);
        lemma_comparisons_known(results, width(results), n - 1);
        lemma_filed(results, width(results), (n - 1) as u32);
    }
}

/// A provider that returned what more than half of the providers returned is
/// not reported, unless someone returned more commands.
pub proof fn law_majority_is_not_reported(
    results: Seq<Seq<CommandView>>,
    provider: usize,
    min_mismatch_ratio: Quantity,
)
    requires
        results.len() <= usize::MAX,
        provider < results.len(),
        min_mismatch_ratio.micros > 0,
        2 * count(results, results[provider as int]) > results.len(),
        forall|i: int|
            0 <= i < results.len() ==> (#[trigger] results[i]).len()
                <= results[provider as int].len(),
    ensures
        !tampered(results, min_mismatch_ratio).contains(provider),
{
    let batch = results[provider as int];
    lemma_width(results, batch.len());
    assert forall|k: int| 0 <= k < width(results) implies !(#[trigger] comparison(
        results,
        k,
    )).mismatching_providers.contains(provider) by {
        let flags = matching(column(results, k));
        lemma_column_count(results, batch, k);
        lemma_majority_is_most_common(present(column(results, k)), batch[k]);
        assert(column(results, k)[provider as int] == Some(batch[k]));
        assert(flags[provider as int]);
        lemma_positions(flags, false);
    }
    lemma_no_deviation(results, provider, compared(results) as nat);
    law_consistent_provider_is_not_reported(results, provider, min_mismatch_ratio);
}

/// No position is listed twice.
pub proof fn lemma_positions_once(flags: Seq<bool>, wanted: bool)
    requires
        flags.len() <= usize::MAX,
    ensures
        positions(flags, wanted).no_duplicates(),
        forall|i: int|
            0 <= i < positions(flags, wanted).len() ==> (#[trigger] positions(flags, wanted)[i])
                < flags.len(),
    decreases flags.len(),
{
    if flags.len() > 0 {
        lemma_positions_once(flags.drop_last(), wanted);
    }
}

/// A lower bound on the share reports every provider that a higher one does.
pub proof fn law_lower_ratio_reports_more(
    results: Seq<Seq<CommandView>>,
    provider: usize,
    low: Quantity,
    high: Quantity,
)
    requires
        results.len() <= usize::MAX,
        low.micros <= high.micros,
        tampered(results, high).contains(provider),
    ensures
        tampered(results, low).contains(provider),
{
    lemma_positions(Seq::new(results.len(), |p: int| is_tampered(results, p, high)), true);
    lemma_positions(Seq::new(results.len(), |p: int| is_tampered(results, p, low)), true);
    let total = compared(results);
    assert(is_tampered(results, provider as int, high));
    assert(low.micros * total <= high.micros * total) by (nonlinear_arith)
        requires
            total > 0,
            low.micros <= high.micros,
    ;
}

proof fn lemma_present_push<A>(items: Seq<Option<A>>, item: Option<A>)
    ensures
        present(items.push(item)) == match item {
            Some(value) => present(items).push(value),
            None => present(items),
        },
{
    assert(items.push(item).drop_last() =~= items);
}

/// Counting does not change under a renaming that keeps different items apart.
proof fn lemma_count_renamed<A, B>(items: Seq<A>, names: Seq<B>, item: A, name: B)
    requires
        items.len() == names.len(),
        forall|i: int|
            0 <= i < items.len() ==> (#[trigger] items[i] == item <==> names[i] == name),
    ensures
        count(items, item) == count(names, name),
    decreases items.len(),
{
    if items.len() > 0 {
        assert forall|i: int| 0 <= i < items.len() - 1 implies (#[trigger] items.drop_last()[i]
            == item <==> names.drop_last()[i] == name) by {
            assert(items[i] == items.drop_last()[i]);
        }
        lemma_count_renamed(items.drop_last(), names.drop_last(), item, name);
        assert(items[items.len() - 1] == item <==> names[names.len() - 1] == name);
    }
}

proof fn lemma_comparisons_known(results: Seq<Seq<CommandView>>, n: nat, k: int)
    requires
        0 <= k < n,
        k < 0x1_0000_0000,
    ensures
        comparisons(results, n).dom().contains(k as u32),
    decreases n,
{
    if k < n - 1 {
        lemma_comparisons_known(results, (n - 1) as nat, k);
    }
}

fn occurrences(items: &Vec<Vec<u8>>, item: &Vec<u8>) -> (n: usize)
    ensures
        n == count(views(items@), item@),
{
    let mut n: usize = 0;
    let mut i: usize = 0;
    let ghost all = views(items@);
    while i < items.len()
        invariant
            i <= items.len(),
            all == views(items@),
            n <= i,
            n == count(all.take(i as int), item@),
        decreases items.len() - i,
    {
        assert(all.take(i + 1).drop_last() =~= all.take(i as int));
        if items[i].same_key(item) {
            n += 1;
        }
        i += 1;
    }
    assert(all.take(i as int) =~= all);
    n
}

/// Comparison of results at the level of single commands.
pub struct ResultComparator;

impl ResultComparator {
    /// Compares the providers' results command by command.
    pub fn compare_by_command(
        results: &[Vec<ExeScriptCommandResult>],
    ) -> (found: HashMap<u32, CommandComparison>)
        ensures
            found@.map_values(|c: CommandComparison| c@) == comparisons(
                batches(results@),
                width(batches(results@)),
            ),
    {
        broadcast use vstd::std_specs::hash::group_hash_axioms;

        let ghost all = batches(results@);
        let mut found: HashMap<u32, CommandComparison> = HashMap::new();
        assert(found@.map_values(|c: CommandComparison| c@) =~= comparisons(all, 0));
        let max_commands: usize = Self::longest(results);
        let mut k: usize = 0;
        while k < max_commands
            invariant
                k <= max_commands == width(all),
                all == batches(results@),
                found@.map_values(|c: CommandComparison| c@) == comparisons(all, k as nat),
            decreases max_commands - k,
        {
            let comparison = Self::compare_command(results, k);
            let ghost before = found@;
            let ghost value = comparison;
            found.insert(k as u32, comparison);
            assert(found@.map_values(|c: CommandComparison| c@) =~= before.map_values(
                |c: CommandComparison| c@,
            ).insert(k as u32, value@));
            k += 1;
        }
        found
    }

    /// The length of the longest batch.
    fn longest(results: &[Vec<ExeScriptCommandResult>]) -> (max: usize)
        ensures
            max == width(batches(results@)),
    {
        let ghost all = batches(results@);
        let mut max: usize = 0;
        let mut i: usize = 0;
        while i < results.len()
            invariant
                i <= results.len(),
                all == batches(results@),
                max == width(all.take(i as int)),
            decreases results.len() - i,
        {
            assert(all.take(i + 1).drop_last() =~= all.take(i as int));
            if results[i].len() > max {
                max = results[i].len();
            }
            i += 1;
        }
        assert(all.take(i as int) =~= all);
        max
    }

    /// Compares the `k`-th command of all providers.
    fn compare_command(results: &[Vec<ExeScriptCommandResult>], k: usize) -> (found: CommandComparison)
        ensures
            found@ == comparison(batches(results@), k as int),
    {
        let ghost col = column(batches(results@), k as int);
        let ghost flags = matching(col);
        let consensus = Self::find_consensus_for_command(results, k);
        let mut agreeing: Vec<usize> = Vec::new();
        let mut deviating: Vec<usize> = Vec::new();
        let mut i: usize = 0;
        while i < results.len()
            invariant
                i <= results.len(),
                col == column(batches(results@), k as int),
                flags == matching(col),
                match consensus {
                    Some(c) => most_common(present(col)) == Some(c@),
                    None => most_common(present(col)) is None,
                },
                agreeing@ == positions(flags.take(i as int), true),
                deviating@ == positions(flags.take(i as int), false),
            decreases results.len() - i,
        {
            assert(flags.take(i + 1).drop_last() =~= flags.take(i as int));
            let agrees = match &consensus {
                Some(c) => if k < results[i].len() {
                    Self::commands_match(&results[i][k], c)
                } else {
                    false
                },
                None => false,
            };
            assert(agrees == flags[i as int]);
            if agrees {
                agreeing.push(i);
            } else {
                deviating.push(i);
            }
            i += 1;
        }
        assert(flags.take(i as int) =~= flags);
        CommandComparison {
            index: k as u32,
            matches: deviating.len() == 0,
            matching_providers: agreeing,
            mismatching_providers: deviating,
        }
    }

    /// The most common result of the `k`-th command.
    fn find_consensus_for_command(
        results: &[Vec<ExeScriptCommandResult>],
        k: usize,
    ) -> (consensus: Option<ExeScriptCommandResult>)
        ensures
            match consensus {
                Some(c) => most_common(present(column(batches(results@), k as int))) == Some(c@),
                None => most_common(present(column(batches(results@), k as int))) is None,
            },
    {
        let ghost all = batches(results@);
        let ghost col = column(all, k as int);
        // The JSON of each result for this command, and its provider.
        let mut texts: Vec<Vec<u8>> = Vec::new();
        let mut owners: Vec<usize> = Vec::new();
        let ghost mut items: Seq<CommandView> = Seq::empty();
        let mut i: usize = 0;
        while i < results.len()
            invariant
                i <= results.len(),
                all == batches(results@),
                col == column(all, k as int),
                items == present(col.take(i as int)),
                items.len() == texts.len() == owners.len(),
                forall|j: int|
                    0 <= j < items.len() ==> {
                        &&& #[trigger] owners@[j] < results.len()
                        &&& k < results@[owners@[j] as int].len()
                        &&& results@[owners@[j] as int]@[k as int]@ == items[j]
                    },
                forall|j: int|
                    0 <= j < items.len() ==> #[trigger] commands_json(seq![items[j]]) == Some(
                        texts@[j]@,
                    ),
                forall|j: int, other: Seq<CommandView>|
                    #![trigger texts@[j], commands_json(other)]
                    0 <= j < items.len() && commands_json(other) == Some(texts@[j]@) ==> other
                        == seq![items[j]],
            decreases results.len() - i,
        {
            assert(col.take(i + 1) =~= col.take(i as int).push(col[i as int]));
            proof {
                lemma_present_push(col.take(i as int), col[i as int]);
            }
            if k < results[i].len() {
                let one = vstd::slice::slice_subrange(results[i].as_slice(), k, k + 1);
                assert(views(one@) =~= seq![results@[i as int]@[k as int]@]);
                let text = commands_to_json(one);
                texts.push(text);
                owners.push(i);
                proof {
                    items = items.push(results@[i as int]@[k as int]@);
                }
            }
            i += 1;
        }
        assert(col.take(i as int) =~= col);
        let ghost names = views(texts@);
        assert forall|j: int| 0 <= j < items.len() implies count(items, #[trigger] items[j])
            == count(names, names[j]) by {
            assert forall|i: int| 0 <= i < items.len() implies (#[trigger] items[i] == items[j]
                <==> names[i] == names[j]) by {
                assert(commands_json(seq![items[i]]) == Some(texts@[i]@));
                assert(commands_json(seq![items[j]]) == Some(texts@[j]@));
                if names[i] == names[j] {
                    assert(seq![items[i]] == seq![items[j]]);
                    assert(seq![items[i]][0] == seq![items[j]][0]);
                }
            }
            lemma_count_renamed(items, names, items[j], names[j]);
        }
        if texts.len() == 0 {
            return None;
        }
        let mut best: usize = 0;
        let mut votes: usize = 0;
        let mut j: usize = 0;
        while j < texts.len()
            invariant
                j <= texts.len() == items.len() == names.len(),
                names == views(texts@),
                forall|m: int|
                    0 <= m < items.len() ==> count(items, #[trigger] items[m]) == count(
                        names,
                        names[m],
                    ),
                j > 0 ==> best < j && votes == count(items, items[best as int]),
                j == 0 ==> votes == 0,
                forall|m: int| 0 <= m < j ==> count(items, #[trigger] items[m]) <= votes,
                forall|m: int| 0 <= m < best ==> count(items, #[trigger] items[m]) < votes,
                best == 0 || j > 0,
            decreases texts.len() - j,
        {
            let n: usize = occurrences(&texts, &texts[j]);
            proof {
                assert(items[j as int] == items[j as int]);
                lemma_count_bound(items, items[j as int]);
            }
            if n > votes {
                best = j;
                votes = n;
            }
            j += 1;
        }
        proof {
            assert(is_mode(items, best as int));
            assert forall|m: int| 0 <= m < best implies !is_mode(items, m) by {
                assert(count(items, items[m]) < votes);
                if is_mode(items, m) {
                    assert(count(items, items[best as int]) <= count(items, items[m]));
                }
            }
            assert(is_first_mode(items, best as int));
            let chosen = choose|m: int| is_first_mode(items, m);
            if chosen < best {
                assert(!is_mode(items, chosen));
            } else if best < chosen {
                assert(!is_mode(items, best as int));
            }
        }
        Some(results[owners[best]][k].clone())
    }

    /// Whether two results of a command match.
    pub fn commands_match(cmd1: &ExeScriptCommandResult, cmd2: &ExeScriptCommandResult) -> (same: bool)
        ensures
            same == same_command(cmd1@, cmd2@),
    {
        cmd1.index == cmd2.index && cmd1.result == cmd2.result && cmd1.is_batch_finished
            == cmd2.is_batch_finished && Self::outputs_match(&cmd1.stdout, &cmd2.stdout)
            && Self::outputs_match(&cmd1.stderr, &cmd2.stderr)
    }

    /// Whether two outputs count as the same. No output is as good as empty
    /// text.
    pub fn outputs_match(out1: &Option<CommandOutput>, out2: &Option<CommandOutput>) -> (same: bool)
        ensures
            same == same_output(view_opt(*out1), view_opt(*out2)),
    {
        match (out1, out2) {
            (None, None) => true,
            (Some(a), None) => is_empty_text(a),
            (None, Some(b)) => is_empty_text(b),
            (Some(a), Some(b)) => {
                let s1 = output_to_json(a);
                let s2 = output_to_json(b);
                proof {
                    if is_blank(Some(a@)) && is_blank(Some(b@)) {
                        assert(a@->Str_0 =~= b@->Str_0);
                    }
                }
                s1 == s2
            },
        }
    }

    /// The providers that deviate on at least the given share of the commands.
    pub fn detect_partial_tampering(
        results: &[Vec<ExeScriptCommandResult>],
        min_mismatch_ratio: Quantity,
    ) -> (providers: Vec<usize>)
        ensures
            providers@ == tampered(batches(results@), min_mismatch_ratio),
    {
        broadcast use vstd::std_specs::hash::group_hash_axioms;

        let ghost all = batches(results@);
        let found = Self::compare_by_command(results);
        let commands: usize = Self::longest(results);
        let total: u64 = if commands as u64 > 0x1_0000_0000 {
            0x1_0000_0000
        } else {
            commands as u64
        };
        let ghost flags = Seq::new(all.len(), |p: int| is_tampered(all, p, min_mismatch_ratio));
        let mut providers: Vec<usize> = Vec::new();
        let mut p: usize = 0;
        while p < results.len()
            invariant
                p <= results.len(),
                all == batches(results@),
                found@.map_values(|c: CommandComparison| c@) == comparisons(all, width(all)),
                total == compared(all),
                flags == Seq::new(all.len(), |p: int| is_tampered(all, p, min_mismatch_ratio)),
                providers@ == positions(flags.take(p as int), true),
            decreases results.len() - p,
        {
            assert(flags.take(p + 1).drop_last() =~= flags.take(p as int));
            let mismatches: u64 = Self::count_deviations(&found, total, p, Ghost(all));
            let scaled: u128 = mismatches as u128 * 1_000_000;
            assert(min_mismatch_ratio.micros * total <= 0xffff_ffff_ffff_ffff * 0x1_0000_0000)
                by (nonlinear_arith)
                requires
                    0 <= min_mismatch_ratio.micros <= 0xffff_ffff_ffff_ffff,
                    0 <= total <= 0x1_0000_0000,
            ;
            let bound: u128 = min_mismatch_ratio.micros as u128 * total as u128;
            assert((total > 0 && scaled >= bound) == flags[p as int]);
            if total > 0 && scaled >= bound {
                providers.push(p);
            }
            p += 1;
        }
        assert(flags.take(p as int) =~= flags);
        providers
    }

    /// The number of commands on which a provider deviates.
    fn count_deviations(
        found: &HashMap<u32, CommandComparison>,
        total: u64,
        provider: usize,
        Ghost(all): Ghost<Seq<Seq<CommandView>>>,
    ) -> (n: u64)
        requires
            found@.map_values(|c: CommandComparison| c@) == comparisons(all, width(all)),
            total == compared(all),
        ensures
            n == deviations(all, provider, total as nat),
            n <= total,
    {
        broadcast use vstd::std_specs::hash::group_hash_axioms;

        let mut n: u64 = 0;
        let mut k: u64 = 0;
        while k < total
            invariant
                k <= total == compared(all),
                n <= k,
                n == deviations(all, provider, k as nat),
                found@.map_values(|c: CommandComparison| c@) == comparisons(all, width(all)),
            decreases total - k,
        {
            let ghost files = comparisons(all, width(all));
            proof {
                lemma_comparisons_known(all, width(all), k as int);
                assert(files.dom().contains(k as u32));
                assert(found@.dom().contains(k as u32));
            }
            let ghost value = found@[k as u32];
            assert(files[k as u32] == value@);
            let deviates = match found.get(&(k as u32)) {
                Some(comparison) => lists(&comparison.mismatching_providers, provider),
                None => false,
            };
            assert(deviates == files[k as u32].mismatching_providers.contains(provider));
            if deviates {
                n += 1;
            }
            k += 1;
        }
        n
    }
}

/// Whether an output is empty text.
fn is_empty_text(output: &CommandOutput) -> (empty: bool)
    ensures
        empty == is_blank(Some(output@)),
{
    match output {
        CommandOutput::Str(text) => text.as_str().unicode_len() == 0,
        CommandOutput::Bin(_) => false,
    }
}

fn lists(items: &Vec<usize>, item: usize) -> (found: bool)
    ensures
        found == items@.contains(item),
{
    let mut i: usize = 0;
    while i < items.len()
        invariant
            i <= items.len(),
            forall|j: int| 0 <= j < i ==> items@[j] != item,
        decreases items.len() - i,
    {
        if items[i] == item {
            assert(items@[i as int] == item);
            return true;
        }
        i += 1;
    }
    false
}

// ---------------------------------------------------------------- laws

/// The providers that returned `command` as their `k`-th.
pub open spec fn holders(results: Seq<Seq<CommandView>>, k: int, command: CommandView) -> Set<int> {
    Set::new(|i: int| 0 <= i < results.len() && k < results[i].len() && results[i][k] == command)
}

/// Whether there is no output, or text without characters.
proof fn lemma_blank(output: Option<OutputView>)
    ensures
        is_blank(output) <==> output is None || output == Some(OutputView::Str(Seq::empty())),
{
    if let Some(OutputView::Str(text)) = output {
        if text.len() == 0 {
            assert(text =~= Seq::empty());
        }
    }
}

/// Two results of a command match exactly where number, outcome and end mark are
/// the same and so is each output; an output that is missing is the same as empty
/// text. Messages and dates do not count.
pub proof fn law_commands_match(a: CommandView, b: CommandView)
    ensures
        same_command(a, b) <==> {
            &&& a.index == b.index
            &&& a.result == b.result
            &&& a.is_batch_finished == b.is_batch_finished
            &&& same_output(a.stdout, b.stdout)
            &&& same_output(a.stderr, b.stderr)
        },
        a.result != b.result ==> !same_command(a, b),
        same_command(
            a,
            CommandView { message: b.message, event_date: b.event_date, ..a },
        ),
{
}

/// Outputs count as the same exactly where they are equal or hold nothing, be it
/// that they are missing or that they are empty text.
pub proof fn law_outputs_match(a: Option<OutputView>, b: Option<OutputView>)
    ensures
        same_output(a, b) <==> a == b || {
            &&& a is None || a == Some(OutputView::Str(Seq::empty()))
            &&& b is None || b == Some(OutputView::Str(Seq::empty()))
        },
{
    lemma_blank(a);
    lemma_blank(b);
}

/// Matching is an equivalence: every result matches itself, and results that
/// match a third match each other.
pub proof fn law_matching_is_an_equivalence(a: CommandView, b: CommandView, c: CommandView)
    ensures
        same_command(a, a),
        same_command(a, b) ==> same_command(b, a),
        same_command(a, b) && same_command(b, c) ==> same_command(a, c),
{
}

proof fn lemma_ascending_positions(flags: Seq<bool>, wanted: bool)
    requires
        flags.len() <= usize::MAX,
    ensures
        forall|i: int, j: int|
            0 <= i < j < positions(flags, wanted).len() ==> #[trigger] positions(flags, wanted)[i]
                < #[trigger] positions(flags, wanted)[j],
    decreases flags.len(),
{
    lemma_positions_once(flags, wanted);
    if flags.len() > 0 {
        lemma_ascending_positions(flags.drop_last(), wanted);
        lemma_positions_once(flags.drop_last(), wanted);
    }
}

proof fn lemma_longest(results: Seq<Seq<CommandView>>, i: int)
    requires
        0 <= i < results.len(),
    ensures
        results[i].len() <= width(results),
    decreases results.len(),
{
    if i < results.len() - 1 {
        lemma_longest(results.drop_last(), i);
    }
}

proof fn lemma_filed_at(results: Seq<Seq<CommandView>>, n: nat, k: int)
    requires
        0 <= k < n <= 0x1_0000_0000,
    ensures
        comparisons(results, n).dom().contains(k as u32),
        comparisons(results, n)[k as u32] == comparison(results, k),
    decreases n,
{
    if k < n - 1 {
        lemma_filed_at(results, (n - 1) as nat, k);
        assert((n - 1) as u32 != k as u32);
    }
}

proof fn lemma_filed_only(results: Seq<Seq<CommandView>>, n: nat, x: u32)
    requires
        n <= 0x1_0000_0000,
    ensures
        comparisons(results, n).dom().contains(x) <==> x < n,
    decreases n,
{
    if n > 0 {
        lemma_filed_only(results, (n - 1) as nat, x);
    }
}

/// The commands among the first `n` for which a provider is on the wrong side.
pub open spec fn missed(
    found: Map<u32, ComparisonView>,
    provider: usize,
    n: nat,
) -> Set<int> {
    Set::new(
        |k: int| 0 <= k < n && found[k as u32].mismatching_providers.contains(provider),
    )
}

proof fn lemma_deviations_are_missed(results: Seq<Seq<CommandView>>, provider: usize, n: nat)
    ensures
        missed(comparisons(results, width(results)), provider, n).finite(),
        missed(comparisons(results, width(results)), provider, n).len() == deviations(
            results,
            provider,
            n,
        ),
    decreases n,
{
    let all = comparisons(results, width(results));
    let now = missed(all, provider, n);
    if n == 0 {
        assert(now =~= Set::empty());
    } else {
        lemma_deviations_are_missed(results, provider, (n - 1) as nat);
        let before = missed(all, provider, (n - 1) as nat);
        if all[(n - 1) as u32].mismatching_providers.contains(provider) {
            assert(now =~= before.insert(n - 1));
            assert(!before.contains(n - 1));
        } else {
            assert(now =~= before);
        }
    }
}

/// Tampering is reported of exactly those providers that are on the wrong side of
/// at least the given share of the comparisons. The longest batch says how many
/// commands there are. Each provider is reported once, in ascending order.
pub proof fn law_report_is_exact(
    results: Seq<Seq<CommandView>>,
    longest: int,
    provider: usize,
    min_mismatch_ratio: Quantity,
)
    requires
        results.len() <= usize::MAX,
        0 <= longest < results.len(),
        forall|i: int|
            0 <= i < results.len() ==> (#[trigger] results[i]).len() <= results[longest].len(),
        results[longest].len() <= 0x1_0000_0000,
    ensures
        ({
            let total = results[longest].len();
            let found = comparisons(results, width(results));
            let reported = tampered(results, min_mismatch_ratio);
            &&& reported.contains(provider) <==> {
                &&& provider < results.len()
                &&& total > 0
                &&& missed(found, provider, total).len() * 1_000_000 >= min_mismatch_ratio.micros
                    * total
            }
            &&& forall|i: int, j: int|
                0 <= i < j < reported.len() ==> #[trigger] reported[i] < #[trigger] reported[j]
        }),
{
    let total = results[longest].len();
    lemma_width(results, total);
    lemma_longest(results, longest);
    lemma_deviations_are_missed(results, provider, total);
    let flags = Seq::new(results.len(), |p: int| is_tampered(results, p, min_mismatch_ratio));
    lemma_positions(flags, true);
    lemma_ascending_positions(flags, true);
}

/// A provider that is on the wrong side of every comparison is reported for
/// every bound of at most one, and one that is on the wrong side of no fewer than
/// a reported one is reported too.
pub proof fn law_more_deviations_are_reported(
    results: Seq<Seq<CommandView>>,
    longest: int,
    provider: usize,
    other: usize,
    min_mismatch_ratio: Quantity,
)
    requires
        results.len() <= usize::MAX,
        0 <= longest < results.len(),
        forall|i: int|
            0 <= i < results.len() ==> (#[trigger] results[i]).len() <= results[longest].len(),
        0 < results[longest].len() <= 0x1_0000_0000,
        provider < results.len(),
        other < results.len(),
    ensures
        ({
            let total = results[longest].len();
            let found = comparisons(results, width(results));
            let reported = tampered(results, min_mismatch_ratio);
            &&& (forall|k: int|
                0 <= k < total ==> (#[trigger] found[k as u32]).mismatching_providers.contains(
                    provider,
                )) && min_mismatch_ratio.micros <= 1_000_000 ==> reported.contains(provider)
            &&& reported.contains(other) && missed(found, other, total).len() <= missed(
                found,
                provider,
                total,
            ).len() ==> reported.contains(provider)
        }),
{
    let total = results[longest].len();
    let found = comparisons(results, width(results));
    law_report_is_exact(results, longest, provider, min_mismatch_ratio);
    law_report_is_exact(results, longest, other, min_mismatch_ratio);
    if forall|k: int|
        0 <= k < total ==> (#[trigger] found[k as u32]).mismatching_providers.contains(provider) {
        assert forall|k: int| #[trigger] missed(found, provider, total).contains(k)
            == vstd::set_lib::set_int_range(0, total as int).contains(k) by {
            if 0 <= k < total {
                assert(found[k as u32].mismatching_providers.contains(provider));
            }
        }
        assert(missed(found, provider, total) =~= vstd::set_lib::set_int_range(0, total as int));
        vstd::set_lib::lemma_int_range(0, total as int);
        if min_mismatch_ratio.micros <= 1_000_000 {
            assert(min_mismatch_ratio.micros * total <= 1_000_000 * total) by (nonlinear_arith)
                requires
                    min_mismatch_ratio.micros <= 1_000_000,
                    total >= 0,
            ;
        }
    }
}

proof fn lemma_holders(results: Seq<Seq<CommandView>>, k: int, command: CommandView)
    requires
        0 <= k,
    ensures
        holders(results, k, command).finite(),
        holders(results, k, command).len() == count(present(column(results, k)), command),
    decreases results.len(),
{
    let now = holders(results, k, command);
    if results.len() == 0 {
        assert(now =~= Set::empty());
    } else {
        let front = results.drop_last();
        let last = results.len() - 1;
        lemma_holders(front, k, command);
        let before = holders(front, k, command);
        let col = column(results, k);
        assert(col.drop_last() =~= column(front, k));
        if k < results[last].len() {
            assert(present(col).drop_last() =~= present(column(front, k)));
            assert(present(col).last() == results[last][k]);
        }
        if k < results[last].len() && results[last][k] == command {
            assert(now =~= before.insert(last));
            assert(!before.contains(last));
        } else {
            assert(now =~= before);
        }
    }
}

/// Where a command stands among those that are there.
proof fn lemma_place(results: Seq<Seq<CommandView>>, k: int, i: int)
    requires
        0 <= k,
        0 <= i < results.len(),
        k < results[i].len(),
    ensures
        ({
            let before = present(column(results.take(i), k));
            let all = present(column(results, k));
            &&& before.len() < all.len()
            &&& all[before.len() as int] == results[i][k]
            &&& forall|c: int| 0 <= c < before.len() ==> #[trigger] all[c] == before[c]
        }),
    decreases results.len(),
{
    let front = results.drop_last();
    let last = results.len() - 1;
    let col = column(results, k);
    assert(col.drop_last() =~= column(front, k));
    if i < last {
        lemma_place(front, k, i);
        assert(front.take(i) =~= results.take(i));
    } else {
        assert(results.take(i) =~= front);
    }
}

proof fn lemma_owner(results: Seq<Seq<CommandView>>, k: int, c: int) -> (owner: int)
    requires
        0 <= k,
        0 <= c < present(column(results, k)).len(),
    ensures
        0 <= owner < results.len(),
        k < results[owner].len(),
        results[owner][k] == present(column(results, k))[c],
    decreases results.len(),
{
    if results.len() == 0 {
        0
    } else {
        let front = results.drop_last();
        let last = results.len() - 1;
        let col = column(results, k);
        assert(col.drop_last() =~= column(front, k));
        if c < present(column(front, k)).len() {
            let owner = lemma_owner(front, k, c);
            assert(front[owner] == results[owner]);
            owner
        } else {
            last
        }
    }
}

/// Whether no command was returned as the `k`-th by more providers than that of
/// the provider `leader`, and none that stands before it by as many.
pub open spec fn leads(results: Seq<Seq<CommandView>>, k: int, leader: int) -> bool {
    &&& 0 <= leader < results.len()
    &&& 0 <= k < results[leader].len()
    &&& forall|i: int|
        0 <= i < results.len() && k < (#[trigger] results[i]).len() ==> {
            &&& holders(results, k, results[i][k]).len() <= holders(
                results,
                k,
                results[leader][k],
            ).len()
            &&& i < leader ==> holders(results, k, results[i][k]).len() < holders(
                results,
                k,
                results[leader][k],
            ).len()
        }
}

proof fn lemma_leader_is_most_common(results: Seq<Seq<CommandView>>, k: int, leader: int)
    requires
        leads(results, k, leader),
    ensures
        most_common(present(column(results, k))) == Some(results[leader][k]),
{
    let items = present(column(results, k));
    let item = results[leader][k];
    let at = present(column(results.take(leader), k)).len() as int;
    lemma_place(results, k, leader);
    lemma_holders(results, k, item);
    assert forall|j: int| 0 <= j < items.len() implies count(items, #[trigger] items[j]) <= count(
        items,
        items[at],
    ) by {
        let owner = lemma_owner(results, k, j);
        lemma_holders(results, k, results[owner][k]);
    }
    assert(is_mode(items, at));
    assert forall|j: int| 0 <= j < at implies !is_mode(items, j) by {
        let owner = lemma_owner(results.take(leader), k, j);
        assert(results.take(leader)[owner] == results[owner]);
        assert(items[j] == results[owner][k]);
        lemma_holders(results, k, results[owner][k]);
        assert(count(items, items[at]) > count(items, items[j]));
    }
    assert(is_first_mode(items, at));
    let chosen = choose|i: int| is_first_mode(items, i);
    if chosen < at {
        assert(!is_mode(items, chosen));
    } else if at < chosen {
        assert(!is_mode(items, at));
    }
}

/// For each command up to the last of the longest batch there is one comparison.
/// What most providers returned, and of several such results the first, is the
/// measure: a provider is on the right side where its command matches that, and
/// on the wrong side where it does not or is missing. Both sides are listed in
/// ascending order.
pub proof fn law_commands_are_compared_with_the_leader(
    results: Seq<Seq<CommandView>>,
    longest: int,
    k: int,
    leader: int,
    provider: usize,
)
    requires
        results.len() <= usize::MAX,
        0 <= longest < results.len(),
        forall|i: int|
            0 <= i < results.len() ==> (#[trigger] results[i]).len() <= results[longest].len(),
        results[longest].len() <= 0x1_0000_0000,
        leads(results, k, leader),
    ensures
        ({
            let found = comparisons(results, width(results));
            let one = found[k as u32];
            let right = provider < results.len() && k < results[provider as int].len()
                && same_command(results[provider as int][k], results[leader][k]);
            &&& found.dom().contains(k as u32)
            &&& one.index == k
            &&& one.matching_providers.contains(provider) <==> right
            &&& one.mismatching_providers.contains(provider) <==> provider < results.len()
                && !right
            &&& one.matches <==> one.mismatching_providers.len() == 0
            &&& one.matching_providers.len() + one.mismatching_providers.len() == results.len()
            &&& forall|i: int, j: int|
                0 <= i < j < one.matching_providers.len() ==> #[trigger] one.matching_providers[i]
                    < #[trigger] one.matching_providers[j]
            &&& forall|i: int, j: int|
                0 <= i < j < one.mismatching_providers.len()
                    ==> #[trigger] one.mismatching_providers[i]
                    < #[trigger] one.mismatching_providers[j]
        }),
{
    let total = results[longest].len();
    lemma_width(results, total);
    lemma_longest(results, longest);
    assert(results[leader].len() <= total);
    lemma_filed_at(results, total, k);
    lemma_leader_is_most_common(results, k, leader);
    let flags = matching(column(results, k));
    lemma_positions(flags, true);
    lemma_positions(flags, false);
    lemma_ascending_positions(flags, true);
    lemma_ascending_positions(flags, false);
}

/// Exactly the commands of the longest batch are compared.
pub proof fn law_every_command_is_compared(
    results: Seq<Seq<CommandView>>,
    longest: int,
    x: u32,
)
    requires
        0 <= longest < results.len(),
        forall|i: int|
            0 <= i < results.len() ==> (#[trigger] results[i]).len() <= results[longest].len(),
        results[longest].len() <= 0x1_0000_0000,
    ensures
        comparisons(results, width(results)).dom().contains(x) <==> x < results[longest].len(),
{
    lemma_width(results, results[longest].len());
    lemma_longest(results, longest);
    lemma_filed_only(results, results[longest].len(), x);
}

} // verus!
