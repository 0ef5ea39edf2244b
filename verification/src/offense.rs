//! What a provider can be accused of, and the circumstances of an accusation.
use crate::fixed::{Decimal, Quantity, Ratio};
use crate::node::NodeId;
use crate::ordered_map::{MapKey, OrderedMap};
use crate::time::DateTime;
use crate::views::{duplicate_all, Duplicate};
#[allow(unused_imports)]
use crate::views::{view_opt, views};
use vstd::prelude::*;

verus! {

/// How severe an offense is.
#[derive(Clone, Copy, Debug, PartialEq, Eq, PartialOrd, Ord, Hash, Structural)]
pub enum OffenseSeverity {
    /// Likely a hardware failure or an accident.
    Minor,
    /// Repeated errors or obvious anomalies.
    Moderate,
    /// Collusion or systematic malice.
    Severe,
}

impl View for OffenseSeverity {
    type V = OffenseSeverity;

    open spec fn view(&self) -> OffenseSeverity {
        *self
    }
}

impl MapKey for OffenseSeverity {
    fn same_key(&self, other: &Self) -> (same: bool) {
        *self == *other
    }
}

impl Duplicate for OffenseSeverity {
    fn duplicate(&self) -> (copy: Self) {
        *self
    }
}

/// The name of a severity.
pub open spec fn severity_text(severity: OffenseSeverity) -> Seq<char> {
    match severity {
        OffenseSeverity::Minor => "Minor"@,
        OffenseSeverity::Moderate => "Moderate"@,
        OffenseSeverity::Severe => "Severe"@,
    }
}

/// Where a severity stands: the worse, the higher.
pub open spec fn rank(severity: OffenseSeverity) -> int {
    match severity {
        OffenseSeverity::Minor => 0,
        OffenseSeverity::Moderate => 1,
        OffenseSeverity::Severe => 2,
    }
}

impl OffenseSeverity {
    /// The name of the severity.
    pub fn to_text(&self) -> (text: String)
        ensures
            text@ == severity_text(*self),
    {
        match self {
            OffenseSeverity::Minor => "Minor".to_string(),
            OffenseSeverity::Moderate => "Moderate".to_string(),
            OffenseSeverity::Severe => "Severe".to_string(),
        }
    }
}

/// What a provider did wrong.
#[derive(Debug, PartialEq, Eq)]
pub enum OffenseType {
    /// The output differs from the consensus.
    WrongResult,
    /// More resources were reported than were used.
    ResourceInflation {
        /// The resource, such as `cpu`, `gpu` or `mem`.
        resource_type: String,
        /// The usage that was reported.
        reported_usage: Decimal,
        /// The usage by consensus.
        expected_usage: Decimal,
        /// The reported usage in relation to the expected one.
        inflation_ratio: Ratio,
    },
    /// The cost was computed wrongly.
    CostFraud {
        /// The cost that was reported.
        reported_cost: Decimal,
        /// The cost by consensus.
        expected_cost: Decimal,
        /// How far apart the two are.
        cost_difference: Quantity,
    },
    /// A time lies in the future or is unreasonable.
    TimestampAnomaly {
        /// The time that was reported.
        reported_time: DateTime,
        /// The time by consensus.
        expected_time: DateTime,
        /// How many seconds lie between the two.
        time_difference_secs: i64,
    },
    /// The result lacks something or has a wrong structure.
    FormatViolation {
        /// What is wrong.
        violation: String,
    },
    /// Several offenses at once.
    Multiple(Vec<OffenseType>),
}

/// The mathematical value of an [`OffenseType`].
pub enum OffenseView {
    WrongResult,
    ResourceInflation {
        resource_type: Seq<char>,
        reported_usage: Decimal,
        expected_usage: Decimal,
        inflation_ratio: Ratio,
    },
    CostFraud { reported_cost: Decimal, expected_cost: Decimal, cost_difference: Quantity },
    TimestampAnomaly {
        reported_time: DateTime,
        expected_time: DateTime,
        time_difference_secs: i64,
    },
    FormatViolation { violation: Seq<char> },
    Multiple(Seq<OffenseView>),
}

impl OffenseType {
    /// The mathematical value of the offense.
    pub open spec fn value(self) -> OffenseView
        decreases self,
    {
        match self {
            OffenseType::WrongResult => OffenseView::WrongResult,
            OffenseType::ResourceInflation {
                resource_type,
                reported_usage,
                expected_usage,
                inflation_ratio,
            } => OffenseView::ResourceInflation {
                resource_type: resource_type@,
                reported_usage,
                expected_usage,
                inflation_ratio,
            },
            OffenseType::CostFraud { reported_cost, expected_cost, cost_difference } => {
                OffenseView::CostFraud { reported_cost, expected_cost, cost_difference }
            },
            OffenseType::TimestampAnomaly { reported_time, expected_time, time_difference_secs } => {
                OffenseView::TimestampAnomaly { reported_time, expected_time, time_difference_secs }
            },
            OffenseType::FormatViolation { violation } => OffenseView::FormatViolation {
                violation: violation@,
            },
            OffenseType::Multiple(offenses) => OffenseView::Multiple(
                Seq::new(
                    offenses@.len(),
                    |i: int|
                        if 0 <= i < offenses@.len() {
                            offenses@[i].value()
                        } else {
                            OffenseView::WrongResult
                        },
                ),
            ),
        }
    }
}

impl View for OffenseType {
    type V = OffenseView;

    open spec fn view(&self) -> OffenseView {
        self.value()
    }
}

fn clone_offenses(offenses: &Vec<OffenseType>) -> (copy: Vec<OffenseType>)
    ensures
        views(copy@) == views(offenses@),
    decreases offenses,
{
    let mut copy: Vec<OffenseType> = Vec::new();
    let mut i: usize = 0;
    while i < offenses.len()
        invariant
            i <= offenses.len(),
            copy@.len() == i,
            forall|j: int| 0 <= j < i ==> (#[trigger] copy@[j])@ == offenses@[j]@,
        decreases offenses.len() - i,
    {
        copy.push(clone_offense(&offenses[i]));
        i += 1;
    }
    assert(views(copy@) =~= views(offenses@));
    copy
}

fn clone_offense(offense: &OffenseType) -> (copy: OffenseType)
    ensures
        copy@ == offense@,
    decreases offense,
{
    match offense {
        OffenseType::WrongResult => OffenseType::WrongResult,
        OffenseType::ResourceInflation {
            resource_type,
            reported_usage,
            expected_usage,
            inflation_ratio,
        } => OffenseType::ResourceInflation {
            resource_type: resource_type.clone(),
            reported_usage: *reported_usage,
            expected_usage: *expected_usage,
            inflation_ratio: *inflation_ratio,
        },
        OffenseType::CostFraud { reported_cost, expected_cost, cost_difference } => {
            OffenseType::CostFraud {
                reported_cost: *reported_cost,
                expected_cost: *expected_cost,
                cost_difference: *cost_difference,
            }
        },
        OffenseType::TimestampAnomaly { reported_time, expected_time, time_difference_secs } => {
            OffenseType::TimestampAnomaly {
                reported_time: *reported_time,
                expected_time: *expected_time,
                time_difference_secs: *time_difference_secs,
            }
        },
        OffenseType::FormatViolation { violation } => OffenseType::FormatViolation {
            violation: violation.clone(),
        },
        OffenseType::Multiple(offenses) => {
            let parts = clone_offenses(offenses);
            let copy = OffenseType::Multiple(parts);
            proof {
                assert(views(parts@).len() == views(offenses@).len());
                assert forall|i: int| 0 <= i < parts@.len() implies (#[trigger] parts@[i]).value()
                    == offenses@[i].value() by {
                    assert(views(parts@)[i] == views(offenses@)[i]);
                }
                assert(copy@->Multiple_0 =~= offense@->Multiple_0);
            }
            copy
        },
    }
}

impl Clone for OffenseType {
    fn clone(&self) -> (copy: Self)
        ensures
            copy@ == self@,
    {
        clone_offense(self)
    }
}

impl Duplicate for OffenseType {
    fn duplicate(&self) -> (copy: Self) {
        clone_offense(self)
    }
}

/// The circumstances of an offense, from which its severity is judged.
#[derive(Debug, PartialEq, Eq)]
pub struct OffenseContext {
    /// The provider that is accused.
    pub provider_id: NodeId,
    /// When it happened.
    pub offense_time: DateTime,
    /// The fingerprint of the wrong result.
    pub wrong_result_hash: String,
    /// The fingerprint of the consensus.
    pub correct_result_hash: String,
    /// What the provider did.
    pub offense_type: OffenseType,
    /// The other providers with the same wrong result.
    pub colluding_providers: Vec<NodeId>,
    /// The number of providers of the task.
    pub total_providers: usize,
    /// The number of malicious providers.
    pub malicious_count: usize,
    /// The resources that were used, where known.
    pub resource_usage: Option<OrderedMap<String, Decimal>>,
    /// The cost, where known.
    pub cost_info: Option<Decimal>,
}

/// The mathematical value of an [`OffenseContext`].
pub struct ContextView {
    pub provider_id: Seq<u8>,
    pub offense_time: DateTime,
    pub wrong_result_hash: Seq<char>,
    pub correct_result_hash: Seq<char>,
    pub offense_type: OffenseView,
    pub colluding_providers: Seq<Seq<u8>>,
    pub total_providers: usize,
    pub malicious_count: usize,
    pub resource_usage: Option<Seq<(Seq<char>, Decimal)>>,
    pub cost_info: Option<Decimal>,
}

impl View for OffenseContext {
    type V = ContextView;

    open spec fn view(&self) -> ContextView {
        ContextView {
            provider_id: self.provider_id@,
            offense_time: self.offense_time,
            wrong_result_hash: self.wrong_result_hash@,
            correct_result_hash: self.correct_result_hash@,
            offense_type: self.offense_type@,
            colluding_providers: views(self.colluding_providers@),
            total_providers: self.total_providers,
            malicious_count: self.malicious_count,
            resource_usage: view_opt(self.resource_usage),
            cost_info: self.cost_info,
        }
    }
}

impl Clone for OffenseContext {
    fn clone(&self) -> (copy: Self)
        ensures
            copy@ == self@,
    {
        let resource_usage = match &self.resource_usage {
            Some(usage) => Some(usage.clone()),
            None => None,
        };
        OffenseContext {
            provider_id: self.provider_id,
            offense_time: self.offense_time,
            wrong_result_hash: self.wrong_result_hash.clone(),
            correct_result_hash: self.correct_result_hash.clone(),
            offense_type: self.offense_type.clone(),
            colluding_providers: duplicate_all(self.colluding_providers.as_slice()),
            total_providers: self.total_providers,
            malicious_count: self.malicious_count,
            resource_usage,
            cost_info: self.cost_info,
        }
    }
}

/// Minor is the least severity and severe the highest, and each has its own name.
pub proof fn law_severities_are_ordered()
    ensures
        rank(OffenseSeverity::Minor) < rank(OffenseSeverity::Moderate),
        rank(OffenseSeverity::Moderate) < rank(OffenseSeverity::Severe),
        severity_text(OffenseSeverity::Minor) != severity_text(OffenseSeverity::Moderate),
        severity_text(OffenseSeverity::Moderate) != severity_text(OffenseSeverity::Severe),
        severity_text(OffenseSeverity::Minor) != severity_text(OffenseSeverity::Severe),
        severity_text(OffenseSeverity::Minor) == "Minor"@,
        severity_text(OffenseSeverity::Moderate) == "Moderate"@,
        severity_text(OffenseSeverity::Severe) == "Severe"@,
{
    reveal_strlit("Minor");
    reveal_strlit("Moderate");
    reveal_strlit("Severe");
    assert("Minor"@.len() == 5);
    assert("Moderate"@.len() == 8);
    assert("Severe"@.len() == 6);
}

} // verus!
