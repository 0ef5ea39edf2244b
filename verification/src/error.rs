//! Error types for the verifier.
use crate::text::push_decimal;
#[allow(unused_imports)]
use crate::text::decimal;
use vstd::prelude::*;

verus! {

/// What verifier operations return.
pub type VerifierResult<T> = std::result::Result<T, VerifierError>;

/// Errors that can occur during verification.
#[derive(Debug)]
pub enum VerifierError {
    /// Fewer results than a decision needs.
    InsufficientResults { received: usize, required: usize },
    /// The results differ too much.
    NoConsensus(usize),
    /// No such task was registered.
    TaskNotFound(String),
    /// The provider has submitted before.
    DuplicateProvider(String),
    /// The result does not belong here.
    InvalidResult(String),
    /// The results did not come in time.
    Timeout(String),
    /// Anything else.
    Internal(String),
}

/// The mathematical value of a [`VerifierError`].
pub enum ErrorView {
    InsufficientResults { received: int, required: int },
    NoConsensus(int),
    TaskNotFound(Seq<char>),
    DuplicateProvider(Seq<char>),
    InvalidResult(Seq<char>),
    Timeout(Seq<char>),
    Internal(Seq<char>),
}

impl View for VerifierError {
    type V = ErrorView;

    open spec fn view(&self) -> ErrorView {
        match *self {
            VerifierError::InsufficientResults { received, required } => {
                ErrorView::InsufficientResults {
                    received: received as int,
                    required: required as int,
                }
            },
            VerifierError::NoConsensus(n) => ErrorView::NoConsensus(n as int),
            VerifierError::TaskNotFound(s) => ErrorView::TaskNotFound(s@),
            VerifierError::DuplicateProvider(s) => ErrorView::DuplicateProvider(s@),
            VerifierError::InvalidResult(s) => ErrorView::InvalidResult(s@),
            VerifierError::Timeout(s) => ErrorView::Timeout(s@),
            VerifierError::Internal(s) => ErrorView::Internal(s@),
        }
    }
}

impl Clone for VerifierError {
    fn clone(&self) -> (copy: Self)
        ensures
            copy@ == self@,
    {
        match self {
            VerifierError::InsufficientResults { received, required } => {
                VerifierError::InsufficientResults { received: *received, required: *required }
            },
            VerifierError::NoConsensus(n) => VerifierError::NoConsensus(*n),
            VerifierError::TaskNotFound(s) => VerifierError::TaskNotFound(s.clone()),
            VerifierError::DuplicateProvider(s) => VerifierError::DuplicateProvider(s.clone()),
            VerifierError::InvalidResult(s) => VerifierError::InvalidResult(s.clone()),
            VerifierError::Timeout(s) => VerifierError::Timeout(s.clone()),
            VerifierError::Internal(s) => VerifierError::Internal(s.clone()),
        }
    }
}

/// What an error says.
pub open spec fn error_text(error: ErrorView) -> Seq<char> {
    match error {
        ErrorView::InsufficientResults { received, required } => {
            "Insufficient results: got "@ + decimal(received as nat) + ", need at least "@
                + decimal(required as nat)
        },
        ErrorView::NoConsensus(n) => {
            "No consensus reached: "@ + decimal(n as nat) + " different results"@
        },
        ErrorView::TaskNotFound(s) => "Task not found: "@ + s,
        ErrorView::DuplicateProvider(s) => "Provider already submitted result: "@ + s,
        ErrorView::InvalidResult(s) => "Invalid result format: "@ + s,
        ErrorView::Timeout(s) => "Timeout waiting for results: "@ + s,
        ErrorView::Internal(s) => "Internal error: "@ + s,
    }
}

fn joined(head: &str, tail: &String) -> (text: String)
    ensures
        text@ == head@ + tail@,
{
    let mut text = head.to_string();
    text.append(tail.as_str());
    text
}

impl VerifierError {
    /// What the error says.
    pub fn to_text(&self) -> (text: String)
        ensures
            text@ == error_text(self@),
    {
        match self {
            VerifierError::InsufficientResults { received, required } => {
                let mut text = "Insufficient results: got ".to_string();
                push_decimal(&mut text, *received as u128);
                text.append(", need at least ");
                push_decimal(&mut text, *required as u128);
                text
            },
            VerifierError::NoConsensus(n) => {
                let mut text = "No consensus reached: ".to_string();
                push_decimal(&mut text, *n as u128);
                text.append(" different results");
                text
            },
            VerifierError::TaskNotFound(s) => joined("Task not found: ", s),
            VerifierError::DuplicateProvider(s) => joined("Provider already submitted result: ", s),
            VerifierError::InvalidResult(s) => joined("Invalid result format: ", s),
            VerifierError::Timeout(s) => joined("Timeout waiting for results: ", s),
            VerifierError::Internal(s) => joined("Internal error: ", s),
        }
    }
}

/// An error names its kind and then what it is about.
pub proof fn law_errors_say_what_is_wrong(s: Seq<char>, received: int, required: int)
    ensures
        error_text(ErrorView::TaskNotFound(s)) == "Task not found: "@ + s,
        error_text(ErrorView::DuplicateProvider(s)) == "Provider already submitted result: "@ + s,
        error_text(ErrorView::InvalidResult(s)) == "Invalid result format: "@ + s,
        error_text(ErrorView::Timeout(s)) == "Timeout waiting for results: "@ + s,
        error_text(ErrorView::Internal(s)) == "Internal error: "@ + s,
        error_text(ErrorView::NoConsensus(received)) == "No consensus reached: "@ + decimal(
            received as nat,
        ) + " different results"@,
        error_text(ErrorView::InsufficientResults { received, required })
            == "Insufficient results: got "@ + decimal(received as nat) + ", need at least "@
            + decimal(required as nat),
{
}

} // verus!
