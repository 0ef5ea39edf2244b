//! Verification of redundantly executed tasks.
//!
//! A task is executed by several providers. Their results are collected and put
//! to a vote: a result counts where more than two thirds of the providers
//! returned it. Providers that deviate are judged and penalised. Beside it
//! stands a ledger of stakes, rewards, commitments and disputes.
pub mod api;
pub mod attack_checks;
pub mod attack_tests;
pub mod command;
pub mod consensus;
pub mod digest;
pub mod error;
pub mod fixed;
pub mod ledger;
pub mod node;
pub mod offense;
pub mod ordered_map;
pub mod requestor;
pub mod result_collector;
pub mod result_comparator;
pub mod result_validator;
pub mod service;
pub mod severity;
pub mod slashing;
pub mod staking;
pub mod text;
pub mod time;
pub mod views;

pub use attack_tests::{generate_test_report, run_all_attack_tests, AttackTestResult};
pub use error::{VerifierError, VerifierResult};
pub use result_collector::{ProviderResult, ResultCollector, VerificationResult};
pub use result_comparator::{CommandComparison, ResultComparator};
pub use result_validator::{ResultValidator, ValidationResult};
pub use service::VerifierService;
pub use slashing::{
    OffenseContext, OffenseSeverity, OffenseTracker, OffenseType, PenaltyMode, SeverityEvaluator,
    SlashingAction, SlashingConfig,
};
